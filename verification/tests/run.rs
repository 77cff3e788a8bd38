use evaluator::ingest::{LeaderboardFetch, RankedEntry};
use evaluator::run::{
    official_candidate, workshop_candidate, Action, Awaited, Event, Orchestrator, Phase,
    DETAILS_TIMEOUT_MS, GAME_MODE_SPRINT, MAX_PAGES,
};
use evaluator::store::ScoreStore;
use evaluator::workshop::SteamPublishedFileDetails;

fn row(player: &str, score: i32) -> RankedEntry {
    RankedEntry {
        player_id: player.to_string(),
        raw_score: score,
        display_name: format!("name of {}", player),
    }
}

fn detail(id: &str, file: Option<&str>, creator: Option<&str>, title: Option<&str>) -> SteamPublishedFileDetails {
    SteamPublishedFileDetails {
        publishedfileid: id.to_string(),
        title: title.map(|s| s.to_string()),
        filename: file.map(|s| s.to_string()),
        creator: creator.map(|s| s.to_string()),
        result: 1,
    }
}

/// Runs to the end against a source that finds every leaderboard with the
/// given number of rows, and a workshop of the given pages.
fn play(run: &mut Orchestrator, store: &mut ScoreStore, rows_per_board: usize, pages: Vec<Vec<SteamPublishedFileDetails>>) -> Vec<String> {
    let mut log = Vec::new();
    let mut pages = pages.into_iter();
    let mut open_page: Option<Vec<SteamPublishedFileDetails>> = None;
    let mut event = Event::Start;
    loop {
        let action = run.step(store, event).expect("the event was awaited");
        event = match action {
            Action::FetchLeaderboard(candidate) => {
                log.push(format!("leaderboard {}", candidate.leaderboard_name));
                let rows = (0..rows_per_board)
                    .map(|i| row(&format!("player{}", i), 10 * (i as i32 + 1)))
                    .collect();
                Event::Leaderboard(LeaderboardFetch::Found(rows))
            },
            Action::FetchPage(request) => {
                log.push(format!("page {}", request.page()));
                match pages.next() {
                    Some(details) => {
                        let ids = details.iter().map(|d| d.publishedfileid.clone()).collect();
                        open_page = Some(details);
                        Event::Page(Some(ids))
                    },
                    None => Event::Page(None),
                }
            },
            Action::FetchDetails(request) => {
                log.push(format!("details {}", request.body));
                assert_eq!(request.policy.timeout_ms, DETAILS_TIMEOUT_MS);
                Event::Details(open_page.take().unwrap())
            },
            Action::Commit => {
                log.push("commit".to_string());
                Event::Committed
            },
            Action::Finished => {
                log.push("finished".to_string());
                return log;
            },
        };
    }
}

#[test]
fn one_official_level_end_to_end() {
    let officials = vec!["LevelA".to_string()];
    let mut run = Orchestrator::new(Some(&officials), false, None);
    let mut store = ScoreStore::new();
    assert_eq!(run.phase(), Phase::Officials);
    assert_eq!(run.awaiting(), Awaited::Start);

    let action = run.step(&mut store, Event::Start).unwrap();
    match action {
        Action::FetchLeaderboard(candidate) => {
            assert_eq!(candidate.leaderboard_name, "LevelA_1_stable");
            assert_eq!(candidate.source_file_id, "official");
            assert_eq!(candidate.display_name, "LevelA");
        },
        _ => panic!("no fetch"),
    }
    let fetched = LeaderboardFetch::Found(vec![row("player1", 10), row("player2", 20), row("player3", 30)]);
    assert!(matches!(run.step(&mut store, Event::Leaderboard(fetched)), Some(Action::Commit)));
    assert_eq!(run.phase(), Phase::Officials);
    assert!(matches!(run.step(&mut store, Event::Committed), Some(Action::Commit)));
    assert_eq!(run.phase(), Phase::FinalRecompute);
    assert!(matches!(run.step(&mut store, Event::Committed), Some(Action::Finished)));
    assert_eq!(run.phase(), Phase::Done);
    assert_eq!(run.awaiting(), Awaited::Nothing);
    assert_eq!(run.level_count(), 1);

    // A board of three earns 3/20 of the full award: 150 at rank 1, then
    // 150 * 3^(-1/25) and 150 * 3^(-2/25), rounded down.
    let expected = [("player1", 10, 1u64, 150u32), ("player2", 20, 2, 143), ("player3", 30, 3, 137)];
    assert_eq!(store.entries().len(), 3);
    for (player, score, rank, evaluation) in expected {
        let entry = store.entry("LevelA_1_stable", player).unwrap();
        assert_eq!((entry.raw_score, entry.rank, entry.evaluation), (score, rank, evaluation));
        let p = store.player(player).unwrap();
        assert_eq!(p.evaluation_sum, evaluation as u128);
        assert_eq!(p.entry_count, 1);
        assert_eq!(p.evaluation, evaluation as u128 / 100);
    }
    let level = store.level("LevelA_1_stable").unwrap();
    assert_eq!(level.entry_count, 3);
    assert_eq!(level.source_file_id.as_deref(), Some("official"));
    assert_eq!(level.display_name.as_deref(), Some("LevelA"));
    assert_eq!(level.evaluation_sum, 1 + 1 + 1);
    assert_eq!(level.evaluation, 0);
}

#[test]
fn one_official_level_with_a_full_board() {
    let officials = vec!["LevelA".to_string()];
    let mut run = Orchestrator::new(Some(&officials), false, None);
    let mut store = ScoreStore::new();
    let log = play(&mut run, &mut store, 20, vec![]);
    assert_eq!(log, vec!["leaderboard LevelA_1_stable", "commit", "commit", "finished"]);
    let firsts: Vec<(u64, u32)> =
        store.entries().iter().take(3).map(|e| (e.rank, e.evaluation)).collect();
    assert_eq!(firsts, vec![(1, 1000), (2, 957), (3, 915)]);
    assert_eq!(store.level("LevelA_1_stable").unwrap().entry_count, 20);
    for p in store.players() {
        let entry = store.entry("LevelA_1_stable", &p.id).unwrap();
        assert_eq!(p.evaluation_sum, entry.evaluation as u128);
    }
}

#[test]
fn a_run_without_sources_only_recomputes() {
    let mut run = Orchestrator::new(None, false, None);
    let mut store = ScoreStore::new();
    store.upsert_entry("L", "a", 1, 1, 1000);
    let log = play(&mut run, &mut store, 0, vec![]);
    assert_eq!(log, vec!["commit", "finished"]);
    assert_eq!(store.level("L").unwrap().evaluation_sum, 10);
}

#[test]
fn an_event_that_is_not_awaited_changes_nothing() {
    let officials = vec!["LevelA".to_string()];
    let mut run = Orchestrator::new(Some(&officials), true, None);
    let mut store = ScoreStore::new();
    assert!(run.step(&mut store, Event::Committed).is_none());
    assert!(run.step(&mut store, Event::Page(None)).is_none());
    assert!(run.step(&mut store, Event::Details(vec![])).is_none());
    assert!(run.step(&mut store, Event::Leaderboard(LeaderboardFetch::NotFound)).is_none());
    assert_eq!(run.awaiting(), Awaited::Start);
    assert!(run.step(&mut store, Event::Start).is_some());
    assert!(run.step(&mut store, Event::Start).is_none());
    assert_eq!(run.awaiting(), Awaited::Leaderboard);
    assert_eq!(store.levels().len(), 0);
}

#[test]
fn a_finished_run_takes_no_event() {
    let mut run = Orchestrator::new(None, false, None);
    let mut store = ScoreStore::new();
    play(&mut run, &mut store, 0, vec![]);
    assert!(run.step(&mut store, Event::Start).is_none());
    assert!(run.step(&mut store, Event::Committed).is_none());
    assert_eq!(run.phase(), Phase::Done);
}

#[test]
fn officials_then_workshop_pages_then_the_sums() {
    let officials = vec!["A".to_string(), "B".to_string()];
    let pages = vec![
        vec![
            detail("11", Some("one.bytes"), Some("c1"), Some("One")),
            detail("12", None, Some("c2"), Some("No file")),
            detail("13", Some("three.bytes"), None, None),
            detail("14", Some("four.bytes.bytes"), Some("c4"), None),
        ],
        vec![],
        vec![detail("31", Some("five"), Some("c5"), None)],
    ];
    let mut run = Orchestrator::new(Some(&officials), true, None);
    let mut store = ScoreStore::new();
    let log = play(&mut run, &mut store, 2, pages);
    assert_eq!(
        log,
        vec![
            "leaderboard A_1_stable",
            "leaderboard B_1_stable",
            "commit",
            "page 1",
            "details itemcount=4&publishedfileids%5B0%5D=11&publishedfileids%5B1%5D=12&publishedfileids%5B2%5D=13&publishedfileids%5B3%5D=14",
            "leaderboard one_1_c1_stable",
            "leaderboard four_1_c4_stable",
            "commit",
            "page 2",
            "details itemcount=0",
            "commit",
            "page 3",
            "details itemcount=1&publishedfileids%5B0%5D=31",
            "leaderboard five_1_c5_stable",
            "commit",
            "page 4",
            "commit",
            "finished",
        ]
    );
    assert_eq!(run.level_count(), 5);
    assert_eq!(run.pages(), 4);
    assert_eq!(store.levels().len(), 5);
    let four = store.level("four_1_c4_stable").unwrap();
    assert_eq!(four.source_file_id.as_deref(), Some("14"));
    assert_eq!(four.display_name.as_deref(), Some("four"));
    assert_eq!(store.level("one_1_c1_stable").unwrap().display_name.as_deref(), Some("One"));
    // each of the two players holds five entries: 100 and 95 on each board
    assert_eq!(store.player("player0").unwrap().evaluation_sum, 500);
    assert_eq!(store.player("player1").unwrap().evaluation_sum, 475);
    assert_eq!(four.evaluation_sum, 5 + 4);
}

#[test]
fn the_cap_on_levels_stops_the_run() {
    let officials = vec!["A".to_string(), "B".to_string(), "C".to_string()];
    let pages = vec![vec![detail("11", Some("one.bytes"), Some("c1"), None)]];
    let mut run = Orchestrator::new(Some(&officials), true, Some(2));
    let mut store = ScoreStore::new();
    let log = play(&mut run, &mut store, 1, pages);
    assert_eq!(
        log,
        vec!["leaderboard A_1_stable", "leaderboard B_1_stable", "commit", "commit", "finished"]
    );
    assert_eq!(run.level_count(), 2);
    assert_eq!(run.pages(), 0);

    let pages = vec![vec![
        detail("11", Some("one.bytes"), Some("c1"), None),
        detail("12", Some("two.bytes"), Some("c2"), None),
    ]];
    let mut run = Orchestrator::new(Some(&officials), true, Some(4));
    let mut store = ScoreStore::new();
    let log = play(&mut run, &mut store, 1, pages);
    assert_eq!(
        log,
        vec![
            "leaderboard A_1_stable",
            "leaderboard B_1_stable",
            "leaderboard C_1_stable",
            "commit",
            "page 1",
            "details itemcount=2&publishedfileids%5B0%5D=11&publishedfileids%5B1%5D=12",
            "leaderboard one_1_c1_stable",
            "commit",
            "commit",
            "finished",
        ]
    );
}

#[test]
fn a_cap_of_zero_skips_the_officials() {
    let officials = vec!["A".to_string()];
    let mut run = Orchestrator::new(Some(&officials), true, Some(0));
    let mut store = ScoreStore::new();
    let log = play(&mut run, &mut store, 1, vec![]);
    assert_eq!(log, vec!["commit", "finished"]);
}

#[test]
fn the_page_ceiling_stops_the_run() {
    let mut run = Orchestrator::new(None, true, None);
    let mut store = ScoreStore::new();
    let pages: Vec<Vec<SteamPublishedFileDetails>> = (0..1200).map(|_| vec![]).collect();
    let log = play(&mut run, &mut store, 0, pages);
    assert_eq!(run.pages(), MAX_PAGES);
    assert_eq!(log.iter().filter(|line| line.starts_with("page ")).count(), 1000);
    assert_eq!(
        log[log.len() - 5..],
        ["page 1000", "details itemcount=0", "commit", "commit", "finished"]
    );
}

#[test]
fn leaderboards_that_are_not_found_still_count() {
    let officials = vec!["A".to_string(), "B".to_string()];
    let mut run = Orchestrator::new(Some(&officials), false, Some(1));
    let mut store = ScoreStore::new();
    assert!(matches!(run.step(&mut store, Event::Start), Some(Action::FetchLeaderboard(_))));
    let next = run.step(&mut store, Event::Leaderboard(LeaderboardFetch::NotFound));
    assert!(matches!(next, Some(Action::Commit)));
    assert_eq!(run.level_count(), 1);
    assert_eq!(store.levels().len(), 0);
}

#[test]
fn candidates_are_named_after_file_mode_and_creator() {
    assert_eq!(GAME_MODE_SPRINT, 1);
    let c = official_candidate("Broken Symmetry");
    assert_eq!(c.leaderboard_name, "Broken Symmetry_1_stable");
    assert_eq!(c.source_file_id, "official");
    assert_eq!(c.display_name, "Broken Symmetry");
    let c = workshop_candidate(&detail("77", Some("canyon.bytes"), Some("765"), Some("Canyon"))).unwrap();
    assert_eq!(c.leaderboard_name, "canyon_1_765_stable");
    assert_eq!(c.source_file_id, "77");
    assert_eq!(c.display_name, "Canyon");
    let c = workshop_candidate(&detail("77", Some("canyon.bytes"), Some("765"), None)).unwrap();
    assert_eq!(c.display_name, "canyon");
    assert!(workshop_candidate(&detail("77", None, Some("765"), Some("x"))).is_none());
    assert!(workshop_candidate(&detail("77", Some("canyon.bytes"), None, Some("x"))).is_none());
}
