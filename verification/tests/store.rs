use evaluator::store::ScoreStore;

#[test]
fn a_new_store_is_empty() {
    let store = ScoreStore::new();
    assert_eq!(store.players().len(), 0);
    assert_eq!(store.levels().len(), 0);
    assert_eq!(store.entries().len(), 0);
    assert_eq!(store.floors(), (100, 20));
}

#[test]
fn floors_must_be_positive() {
    assert!(ScoreStore::with_floors(0, 20).is_none());
    assert!(ScoreStore::with_floors(100, 0).is_none());
    let store = ScoreStore::with_floors(1, 2).unwrap();
    assert_eq!(store.floors(), (1, 2));
}

#[test]
fn upsert_player_creates_then_renames() {
    let mut store = ScoreStore::new();
    store.upsert_player("player1", "Ann");
    store.upsert_player("player2", "Bob");
    store.upsert_player("player1", "Anna");
    assert_eq!(store.players().len(), 2);
    let ann = store.player("player1").unwrap();
    assert_eq!(ann.display_name.as_deref(), Some("Anna"));
    assert_eq!(ann.entry_count, 0);
    assert_eq!(ann.evaluation_sum, 0);
    assert_eq!(ann.evaluation, 0);
    assert!(store.player("player3").is_none());
}

#[test]
fn upsert_level_is_create_if_absent() {
    let mut store = ScoreStore::new();
    store.upsert_level("L");
    store.set_level_catalog_info("L", "42", "Level L");
    store.upsert_level("L");
    assert_eq!(store.levels().len(), 1);
    let level = store.level("L").unwrap();
    assert_eq!(level.source_file_id.as_deref(), Some("42"));
    assert_eq!(level.display_name.as_deref(), Some("Level L"));
}

#[test]
fn catalog_info_of_an_unknown_level_is_dropped() {
    let mut store = ScoreStore::new();
    store.set_level_catalog_info("nowhere", "42", "Nowhere");
    assert_eq!(store.levels().len(), 0);
    assert!(store.level("nowhere").is_none());
}

#[test]
fn a_new_entry_moves_the_counts_and_the_sum() {
    let mut store = ScoreStore::with_floors(2, 2).unwrap();
    store.upsert_entry("L1", "p", 10, 1, 1000);
    store.upsert_entry("L2", "p", 20, 3, 500);
    store.upsert_entry("L3", "p", 30, 2, 300);
    let p = store.player("p").unwrap();
    assert_eq!(p.entry_count, 3);
    assert_eq!(p.evaluation_sum, 1800);
    assert_eq!(p.evaluation, 600);
    assert_eq!(p.display_name, None);
    assert_eq!(store.level("L1").unwrap().entry_count, 1);
    assert_eq!(store.level("L2").unwrap().entry_count, 1);
    let e = store.entry("L2", "p").unwrap();
    assert_eq!((e.raw_score, e.rank, e.evaluation), (20, 3, 500));
    assert!(store.entry("L2", "q").is_none());
}

#[test]
fn a_replaced_entry_moves_the_sum_by_the_difference() {
    let mut store = ScoreStore::new();
    store.upsert_entry("L1", "p", 10, 1, 1000);
    store.upsert_entry("L2", "p", 20, 1, 500);
    store.upsert_entry("L1", "p", 11, 4, 880);
    let p = store.player("p").unwrap();
    assert_eq!(p.entry_count, 2);
    assert_eq!(p.evaluation_sum, 1380);
    assert_eq!(p.evaluation, 13);
    assert_eq!(store.entries().len(), 2);
    assert_eq!(store.level("L1").unwrap().entry_count, 1);
    let e = store.entry("L1", "p").unwrap();
    assert_eq!((e.raw_score, e.rank, e.evaluation), (11, 4, 880));
}

#[test]
fn the_sum_is_the_sum_of_the_stored_entries() {
    let mut store = ScoreStore::new();
    let awards = [1000u32, 957, 0, 333, 4_294_967_295];
    for (i, award) in awards.iter().enumerate() {
        store.upsert_entry(&format!("L{}", i), "p", i as i32, 1, *award);
        store.upsert_entry(&format!("L{}", i), "q", i as i32, 2, 7);
    }
    store.upsert_entry("L1", "p", 0, 1, 1);
    store.upsert_entry("L4", "p", 0, 1, 2);
    for player in store.players() {
        let sum: u128 = store
            .entries()
            .iter()
            .filter(|e| e.player_id == player.id)
            .map(|e| e.evaluation as u128)
            .sum();
        let count = store.entries().iter().filter(|e| e.player_id == player.id).count() as u64;
        assert_eq!(player.evaluation_sum, sum);
        assert_eq!(player.entry_count, count);
        assert_eq!(player.evaluation, sum / 100);
    }
    assert_eq!(store.player("p").unwrap().evaluation_sum, 1000 + 1 + 0 + 333 + 2);
}

#[test]
fn the_divisor_is_the_count_once_it_passes_the_floor() {
    let mut store = ScoreStore::with_floors(3, 1).unwrap();
    for i in 0..5 {
        store.upsert_entry(&format!("L{}", i), "p", 0, 1, 100);
    }
    let p = store.player("p").unwrap();
    assert_eq!(p.evaluation_sum, 500);
    assert_eq!(p.evaluation, 100);
    store.upsert_entry("L0", "q", 0, 2, 100);
    assert_eq!(store.player("q").unwrap().evaluation, 33);
}

#[test]
fn level_sums_wait_for_the_recompute() {
    let mut store = ScoreStore::with_floors(1, 2).unwrap();
    store.upsert_entry("L", "a", 10, 1, 900);
    store.upsert_entry("L", "b", 20, 2, 600);
    store.upsert_entry("L", "c", 30, 3, 300);
    store.upsert_entry("M", "a", 10, 1, 100);
    let level = store.level("L").unwrap();
    assert_eq!(level.entry_count, 3);
    assert_eq!(level.evaluation_sum, 0);
    assert_eq!(level.evaluation, 0);
    store.recompute_all_level_sums();
    // a: (900 + 100) / 2 = 500, b: 600, c: 300
    let level = store.level("L").unwrap();
    assert_eq!(level.evaluation_sum, 1400);
    assert_eq!(level.evaluation, 466);
    let other = store.level("M").unwrap();
    assert_eq!(other.evaluation_sum, 500);
    assert_eq!(other.evaluation, 250);
}

#[test]
fn recomputing_twice_changes_nothing() {
    let mut store = ScoreStore::new();
    store.upsert_entry("L", "a", 10, 1, 1000);
    store.upsert_entry("L", "b", 20, 2, 957);
    store.upsert_entry("M", "b", 20, 1, 1000);
    store.recompute_all_level_sums();
    let first: Vec<(u128, u128)> =
        store.levels().iter().map(|l| (l.evaluation_sum, l.evaluation)).collect();
    store.recompute_all_level_sums();
    let second: Vec<(u128, u128)> =
        store.levels().iter().map(|l| (l.evaluation_sum, l.evaluation)).collect();
    assert_eq!(first, second);
    assert_eq!(first, vec![(10 + 19, 1), (19, 0)]);
}

#[test]
fn a_level_evaluation_follows_its_entry_count() {
    let mut store = ScoreStore::with_floors(1, 1).unwrap();
    store.upsert_entry("L", "a", 10, 1, 1000);
    store.recompute_all_level_sums();
    assert_eq!(store.level("L").unwrap().evaluation, 1000);
    store.upsert_entry("L", "b", 20, 2, 0);
    let level = store.level("L").unwrap();
    assert_eq!(level.evaluation_sum, 1000);
    assert_eq!(level.entry_count, 2);
    assert_eq!(level.evaluation, 500);
}

#[test]
fn a_hundred_thousand_entries_are_kept_in_step() {
    let mut store = ScoreStore::new();
    for level in 0..50u32 {
        let level_id = format!("level{}", level);
        for position in 0..2000u32 {
            let player_id = format!("player{}", (position * 7 + level * 13) % 3000);
            store.upsert_entry(&level_id, &player_id, position as i32, position as u64 + 1, position % 1001);
        }
    }
    store.recompute_all_level_sums();
    assert_eq!(store.entries().len(), 100_000);
    assert_eq!(store.levels().len(), 50);
    assert_eq!(store.players().len(), 3000);
    let counted: u64 = store.players().iter().map(|p| p.entry_count).sum();
    assert_eq!(counted, 100_000);
    let summed: u128 = store.players().iter().map(|p| p.evaluation_sum).sum();
    let expected: u128 = store.entries().iter().map(|e| e.evaluation as u128).sum();
    assert_eq!(summed, expected);
    for level in store.levels() {
        assert_eq!(level.entry_count, 2000);
        assert_eq!(level.evaluation, level.evaluation_sum / 2000);
    }
    let entry = store.entry("level49", "player637").unwrap();
    assert_eq!(entry.rank, 1);
}
