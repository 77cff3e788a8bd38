//! The tables in which a store is kept on disk.  They hold the rows as the
//! store hands them out, aggregates included: no trigger recomputes
//! anything, since the store itself keeps the aggregates in step.
use vstd::prelude::*;

verus! {

/// One row per player.
pub const PLAYERS_TABLE: &'static str =
    "CREATE TABLE IF NOT EXISTS players (
	steam_id TEXT NOT NULL PRIMARY KEY,
	score_count INTEGER NOT NULL DEFAULT 0,
	evaluation_sum INTEGER NOT NULL DEFAULT 0,
	evaluation INTEGER NOT NULL DEFAULT 0,
	cached_display_name TEXT
) WITHOUT ROWID;";

/// One row per level.
pub const LEVELS_TABLE: &'static str =
    "CREATE TABLE IF NOT EXISTS levels (
	level_id TEXT NOT NULL PRIMARY KEY,
	score_count INTEGER NOT NULL DEFAULT 0,
	evaluation_sum INTEGER NOT NULL DEFAULT 0,
	evaluation INTEGER DEFAULT 0,
	file_id TEXT,
	cached_display_name TEXT
) WITHOUT ROWID;";

/// One row per leaderboard entry: a player has at most one on a level.
pub const LEADERBOARD_TABLE: &'static str =
    "CREATE TABLE IF NOT EXISTS steam_leaderboard (
	level_id TEXT NOT NULL,
	steam_id TEXT NOT NULL,
	score INTEGER NOT NULL,
	placement INTEGER NOT NULL DEFAULT 0,
	evaluation INTEGER NOT NULL DEFAULT 0,
	PRIMARY KEY(level_id, steam_id),
	FOREIGN KEY(level_id) REFERENCES levels(level_id),
	FOREIGN KEY(steam_id) REFERENCES players(steam_id)
) WITHOUT ROWID;";

/// The indexes by which the tables are searched.
pub const INDEXES: &'static str =
    "CREATE INDEX IF NOT EXISTS index_steam_leaderboard_placement ON steam_leaderboard(level_id, placement);
CREATE INDEX IF NOT EXISTS index_players_display_name ON players(cached_display_name);
CREATE INDEX IF NOT EXISTS index_players_evaluation_sum ON players(evaluation_sum);
CREATE INDEX IF NOT EXISTS index_players_evaluation ON players(evaluation);
CREATE INDEX IF NOT EXISTS index_levels_file_id ON levels(file_id);
CREATE INDEX IF NOT EXISTS index_levels_display_name ON levels(cached_display_name);";

/// The statements that create the tables and their indexes, in the order
/// in which they must run.  Each of them does nothing where its table or
/// index exists.
pub fn get_statements() -> (statements: Vec<&'static str>)
    ensures
        statements@ == seq![PLAYERS_TABLE, LEVELS_TABLE, LEADERBOARD_TABLE, INDEXES],
{
    let mut statements: Vec<&'static str> = Vec::new();
    statements.push(PLAYERS_TABLE);
    statements.push(LEVELS_TABLE);
    statements.push(LEADERBOARD_TABLE);
    statements.push(INDEXES);
    assert(statements@ =~= seq![PLAYERS_TABLE, LEVELS_TABLE, LEADERBOARD_TABLE, INDEXES]);
    statements
}

} // verus!
