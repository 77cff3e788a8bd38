use evaluator::ingest::RankedEntry;
use evaluator::versus::player_vs_player;

fn ranked(players: &[&str]) -> Vec<RankedEntry> {
    players
        .iter()
        .enumerate()
        .map(|(i, player)| RankedEntry {
            player_id: player.to_string(),
            raw_score: i as i32,
            display_name: String::new(),
        })
        .collect()
}

#[test]
fn every_player_beats_everyone_below() {
    let pairs: Vec<(String, String)> = player_vs_player(&ranked(&["a", "b", "c", "d"]))
        .into_iter()
        .map(|duel| (duel.winner_id, duel.loser_id))
        .collect();
    let expected: Vec<(String, String)> =
        [("a", "b"), ("a", "c"), ("a", "d"), ("b", "c"), ("b", "d"), ("c", "d")]
            .iter()
            .map(|(w, l)| (w.to_string(), l.to_string()))
            .collect();
    assert_eq!(pairs, expected);
}

#[test]
fn fewer_than_two_players_make_no_pair() {
    assert_eq!(player_vs_player(&ranked(&[])).len(), 0);
    assert_eq!(player_vs_player(&ranked(&["a"])).len(), 0);
}

#[test]
fn the_pairs_of_a_board_number_its_choices_of_two() {
    let players: Vec<String> = (0..40).map(|i| format!("player{}", i)).collect();
    let names: Vec<&str> = players.iter().map(|s| s.as_str()).collect();
    assert_eq!(player_vs_player(&ranked(&names)).len(), 40 * 39 / 2);
}
