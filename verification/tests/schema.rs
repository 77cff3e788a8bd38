use evaluator::schema::{get_statements, INDEXES, LEADERBOARD_TABLE, LEVELS_TABLE, PLAYERS_TABLE};

#[test]
fn the_schema_makes_three_tables_and_their_indexes() {
    let statements = get_statements();
    assert_eq!(statements, vec![PLAYERS_TABLE, LEVELS_TABLE, LEADERBOARD_TABLE, INDEXES]);
    assert!(statements[0].starts_with("CREATE TABLE IF NOT EXISTS players ("));
    assert!(statements[1].starts_with("CREATE TABLE IF NOT EXISTS levels ("));
    assert!(statements[2].starts_with("CREATE TABLE IF NOT EXISTS steam_leaderboard ("));
    assert!(statements[2].contains("PRIMARY KEY(level_id, steam_id)"));
    for statement in &statements {
        assert!(!statement.contains("TRIGGER"));
        assert!(statement.ends_with(';'));
    }
}
