//! Taking a leaderboard into the store: the entries in the order in which
//! the source ranked them, each with the award for its rank.
use crate::evaluation::{award, evaluate, lemma_award_exists};
use crate::ledger::{
    entries_on_level, lemma_with_catalog_info, lemma_with_entry, lemma_with_level,
    lemma_with_player, new_level, EntryFacts, EntryKey, Ledger, LevelFacts,
};
use crate::store::ScoreStore;
use crate::table::{
    distinct_keys, ensured, holds, lemma_ensured, lemma_last_write_of_distinct, lemma_put,
    lemma_replay, lemma_replay_grows, lemma_replay_of_new_keys, lemma_replay_twice,
    lemma_shared_keys, lemma_slot_of_held, lemma_tally_agrees, lemma_tally_concat,
    lemma_tally_counts, lemma_tally_zero_rows, replay, shared_with, slot, value_at,
};
use vstd::prelude::*;

verus! {

/// One row of a leaderboard as the source reports it.  The rows come best
/// first: a row's rank is its position.
#[derive(Debug)]
pub struct RankedEntry {
    pub player_id: String,
    pub raw_score: i32,
    /// The player's display name, as far as it could be had.
    pub display_name: String,
}

/// What the source answers when asked for a leaderboard.
#[derive(Debug)]
pub enum LeaderboardFetch {
    /// The leaderboard, best entry first.
    Found(Vec<RankedEntry>),
    /// The source has no leaderboard of that name.
    NotFound,
}

/// The entry that the row at `position` of a leaderboard of `total` rows
/// makes: ranked by its position, from 1, and evaluated for that rank.
pub open spec fn entry_write(level: Seq<char>, row: RankedEntry, position: int, total: nat) -> (
    EntryKey,
    EntryFacts,
) {
    (
        EntryKey { level, player: row.player_id@ },
        EntryFacts {
            raw_score: row.raw_score,
            rank: (position + 1) as u64,
            evaluation: award((position + 1) as nat, total) as u32,
        },
    )
}

/// The ledger after the first `count` rows of the leaderboard are taken
/// in: for each row in turn, the player is registered under the row's
/// display name, the level is registered, and the row's entry is written.
pub open spec fn walked(ledger: Ledger, level: Seq<char>, rows: Seq<RankedEntry>, count: nat) -> Ledger
    decreases count,
{
    if count == 0 {
        ledger
    } else {
        let row = rows[count - 1];
        let write = entry_write(level, row, count - 1, rows.len());
        walked(ledger, level, rows, (count - 1) as nat).with_player(
            row.player_id@,
            row.display_name@,
        ).with_level(level).with_entry(write.0, write.1)
    }
}

/// The ledger after the whole leaderboard is taken in and the level's
/// catalog info recorded.  An empty leaderboard still registers the level.
pub open spec fn ingested(
    ledger: Ledger,
    level: Seq<char>,
    source_file_id: Seq<char>,
    display_name: Seq<char>,
    rows: Seq<RankedEntry>,
) -> Ledger {
    walked(ledger, level, rows, rows.len()).with_level(level).with_catalog_info(
        level,
        source_file_id,
        display_name,
    )
}

/// The display names that a leaderboard writes, row by row.
pub open spec fn name_writes(rows: Seq<RankedEntry>) -> Seq<(Seq<char>, Option<Seq<char>>)> {
    Seq::new(rows.len(), |i: int| (rows[i].player_id@, Some(rows[i].display_name@)))
}

/// The entries that a leaderboard writes, row by row.
pub open spec fn entry_writes(level: Seq<char>, rows: Seq<RankedEntry>) -> Seq<
    (EntryKey, EntryFacts),
> {
    Seq::new(rows.len(), |i: int| entry_write(level, rows[i], i, rows.len()))
}

/// No player stands in two rows.
pub open spec fn distinct_players(rows: Seq<RankedEntry>) -> bool {
    forall|i: int, j: int|
        0 <= i < j < rows.len() ==> (#[trigger] rows[i]).player_id@ != (
        #[trigger] rows[j]).player_id@
}

/// Walking a leaderboard keeps the ledger valid, and comes to this: the
/// rows' display names are written to the players in order, the rows'
/// entries are written to the entries in order, and the level is
/// registered once a row is taken in.
pub proof fn lemma_walked(ledger: Ledger, level: Seq<char>, rows: Seq<RankedEntry>, count: nat)
    requires
        ledger.valid(),
        count <= rows.len(),
    ensures
        walked(ledger, level, rows, count).valid(),
        walked(ledger, level, rows, count) == (Ledger {
            players: replay(ledger.players, name_writes(rows).take(count as int)),
            levels: if count == 0 {
                ledger.levels
            } else {
                ensured(ledger.levels, level, new_level())
            },
            entries: replay(ledger.entries, entry_writes(level, rows).take(count as int)),
            ..ledger
        }),
    decreases count,
{
    let names = name_writes(rows);
    let writes = entry_writes(level, rows);
    if count == 0 {
        assert(names.take(0) =~= Seq::empty());
        assert(writes.take(0) =~= Seq::empty());
    } else {
        let before = walked(ledger, level, rows, (count - 1) as nat);
        lemma_walked(ledger, level, rows, (count - 1) as nat);
        let row = rows[count - 1];
        let write = entry_write(level, row, count - 1, rows.len());
        let named = before.with_player(row.player_id@, row.display_name@);
        lemma_with_player(before, row.player_id@, row.display_name@);
        let placed = named.with_level(level);
        lemma_with_level(named, level);
        lemma_with_entry(placed, write.0, write.1);
        lemma_put(before.players, row.player_id@, Some(row.display_name@));
        lemma_ensured(ledger.levels, level, new_level());
        assert(names.take(count as int).drop_last() =~= names.take(count - 1));
        assert(names.take(count as int).last() == (row.player_id@, Some(row.display_name@)));
        assert(writes.take(count as int).drop_last() =~= writes.take(count - 1));
        assert(writes.take(count as int).last() == write);
    }
}

/// A leaderboard taken in for the first time, with no player in two rows:
/// its rows become the level's entries, in order, after the entries that
/// were there; so the level has as many entries as the leaderboard has
/// rows, and their ranks are 1, 2, and so on to that number, each once.
pub proof fn lemma_fresh_leaderboard(ledger: Ledger, level: Seq<char>, rows: Seq<RankedEntry>)
    requires
        ledger.valid(),
        ledger.level_entry_count(level) == 0,
        distinct_players(rows),
        rows.len() <= usize::MAX,
    ensures
        walked(ledger, level, rows, rows.len()).entries == ledger.entries + entry_writes(
            level,
            rows,
        ),
        walked(ledger, level, rows, rows.len()).level_entry_count(level) == rows.len(),
        forall|i: int|
            0 <= i < rows.len() ==> (#[trigger] entry_writes(level, rows)[i]).1.rank == i + 1,
{
    let writes = entry_writes(level, rows);
    lemma_walked(ledger, level, rows, rows.len());
    assert(writes.take(rows.len() as int) =~= writes);
    lemma_tally_zero_rows(ledger.entries, entries_on_level(level));
    assert forall|j: int| 0 <= j < writes.len() implies !holds(
        ledger.entries,
        (#[trigger] writes[j]).0,
    ) by {
        if holds(ledger.entries, writes[j].0) {
            lemma_slot_of_held(ledger.entries, writes[j].0);
        }
    }
    assert(distinct_keys(writes)) by {
        assert forall|i: int, j: int| 0 <= i < j < writes.len() implies (#[trigger] writes[i]).0
            != (#[trigger] writes[j]).0 by {
            assert(rows[i].player_id@ != rows[j].player_id@);
        }
    }
    lemma_replay_of_new_keys(ledger.entries, writes);
    lemma_tally_concat(ledger.entries, writes, entries_on_level(level));
    lemma_tally_counts(writes, entries_on_level(level));
}

/// A leaderboard taken in again, with no player in two rows and with a row
/// for every player who held an entry on the level: the level's entries are
/// the rows' entries, one for each row, so their number is the number of
/// rows and their ranks are 1, 2, and so on to that number, each once.
pub proof fn lemma_refreshed_leaderboard(ledger: Ledger, level: Seq<char>, rows: Seq<RankedEntry>)
    requires
        ledger.valid(),
        distinct_players(rows),
        rows.len() <= usize::MAX,
        forall|i: int|
            0 <= i < ledger.entries.len() && (#[trigger] ledger.entries[i]).0.level == level
                ==> holds(name_writes(rows), ledger.entries[i].0.player),
    ensures
        walked(ledger, level, rows, rows.len()).level_entry_count(level) == rows.len(),
        forall|j: int|
            0 <= j < rows.len() ==> holds(
                walked(ledger, level, rows, rows.len()).entries,
                (#[trigger] entry_writes(level, rows)[j]).0,
            ) && value_at(
                walked(ledger, level, rows, rows.len()).entries,
                entry_writes(level, rows)[j].0,
            ) == entry_writes(level, rows)[j].1 && entry_writes(level, rows)[j].1.rank == j + 1,
        forall|i: int|
            0 <= i < walked(ledger, level, rows, rows.len()).entries.len() && (
            #[trigger] walked(ledger, level, rows, rows.len()).entries[i]).0.level == level
                ==> holds(
                entry_writes(level, rows),
                walked(ledger, level, rows, rows.len()).entries[i].0,
            ),
{
    let writes = entry_writes(level, rows);
    let names = name_writes(rows);
    let after = walked(ledger, level, rows, rows.len());
    let on_level = entries_on_level(level);
    lemma_walked(ledger, level, rows, rows.len());
    assert(writes.take(rows.len() as int) =~= writes);
    assert(distinct_keys(writes)) by {
        assert forall|i: int, j: int| 0 <= i < j < writes.len() implies (#[trigger] writes[i]).0
            != (#[trigger] writes[j]).0 by {
            assert(rows[i].player_id@ != rows[j].player_id@);
        }
    }
    lemma_replay(ledger.entries, writes);
    // every row's entry is there as the row wrote it
    assert forall|j: int| 0 <= j < rows.len() implies holds(after.entries, (#[trigger] writes[j]).0)
        && value_at(after.entries, writes[j].0) == writes[j].1 && writes[j].1.rank == j + 1 by {
        assert(holds(writes, writes[j].0));
        lemma_last_write_of_distinct(writes, j);
        assert(holds(replay(ledger.entries, writes), writes[j].0));
    }
    // an entry on the level that no row wrote would have been there before
    assert forall|i: int|
        0 <= i < ledger.entries.len() implies (shared_with(writes))(#[trigger] ledger.entries[i])
        == on_level(ledger.entries[i]) by {
        let key = ledger.entries[i].0;
        if key.level == level {
            let j = slot(names, key.player);
            assert(names[j].0 == key.player);
            assert(writes[j].0 == key);
        }
        if holds(writes, key) {
            let j = slot(writes, key);
            assert(writes[j].0 == key);
        }
    }
    assert forall|i: int|
        0 <= i < after.entries.len() && (#[trigger] after.entries[i]).0.level == level implies holds(
        writes,
        after.entries[i].0,
    ) by {
        let key = after.entries[i].0;
        assert(holds(after.entries, key));
        if !holds(writes, key) {
            assert(holds(ledger.entries, key));
            let k = slot(ledger.entries, key);
            assert(ledger.entries[k].0 == key);
            assert((shared_with(writes))(ledger.entries[k]) == on_level(ledger.entries[k]));
        }
    }
    // count: each row adds an entry unless it replaces one
    assert forall|j: int| 0 <= j < writes.len() implies on_level(#[trigger] writes[j]) == 1 by {}
    assert forall|i: int|
        0 <= i < ledger.entries.len() && holds(writes, (#[trigger] ledger.entries[i]).0) implies on_level(
    ledger.entries[i]) == 1 by {
        assert((shared_with(writes))(ledger.entries[i]) == on_level(ledger.entries[i]));
    }
    lemma_replay_grows(ledger.entries, writes, on_level);
    lemma_shared_keys(ledger.entries, writes);
    lemma_tally_agrees(ledger.entries, shared_with(writes), on_level);
}

/// Taking the same leaderboard in a second time changes nothing.
pub proof fn lemma_ingested_twice(
    ledger: Ledger,
    level: Seq<char>,
    source_file_id: Seq<char>,
    display_name: Seq<char>,
    rows: Seq<RankedEntry>,
)
    requires
        ledger.valid(),
    ensures
        ingested(
            ingested(ledger, level, source_file_id, display_name, rows),
            level,
            source_file_id,
            display_name,
            rows,
        ) == ingested(ledger, level, source_file_id, display_name, rows),
{
    let n = rows.len();
    let names = name_writes(rows);
    let writes = entry_writes(level, rows);
    assert(names.take(n as int) =~= names);
    assert(writes.take(n as int) =~= writes);
    // the first time
    let walk1 = walked(ledger, level, rows, n);
    lemma_walked(ledger, level, rows, n);
    let placed1 = walk1.with_level(level);
    lemma_with_level(walk1, level);
    let once = placed1.with_catalog_info(level, source_file_id, display_name);
    lemma_with_catalog_info(placed1, level, source_file_id, display_name);
    // the second time
    let walk2 = walked(once, level, rows, n);
    lemma_walked(once, level, rows, n);
    lemma_replay_twice(ledger.players, names);
    lemma_replay_twice(ledger.entries, writes);
    lemma_ensured(placed1.levels, level, new_level());
    assert(holds(once.levels, level)) by {
        lemma_put(
            placed1.levels,
            level,
            LevelFacts {
                evaluation_sum: placed1.level_evaluation_sum(level),
                source_file_id: Some(source_file_id),
                display_name: Some(display_name),
            },
        );
    }
    assert(walk2 == once);
    lemma_with_level(once, level);
}

/// Takes the leaderboard's rows into the store: row by row, the player is
/// registered under the row's display name, the level is registered, and
/// the row's entry is written with its position as rank and the award for
/// that rank on a board of this size as evaluation.
pub fn upsert_leaderboard(store: &mut ScoreStore, level_id: &str, entries: &Vec<RankedEntry>)
    requires
        old(store).wf(),
    ensures
        final(store).wf(),
        final(store)@ == walked(old(store)@, level_id@, entries@, entries@.len()),
{
    let total: usize = entries.len();
    let ghost before = store@;
    let mut placement: usize = 0;
    while placement < total
        invariant
            placement <= total,
            total == entries@.len(),
            store.wf(),
            store@ == walked(before, level_id@, entries@, placement as nat),
        decreases total - placement,
    {
        let row = &entries[placement];
        let rank: u64 = (placement + 1) as u64;
        let evaluation: u32 = evaluate(rank, total as u64);
        proof {
            lemma_award_exists(rank as nat, total as nat);
        }
        store.upsert_player(row.player_id.as_str(), row.display_name.as_str());
        store.upsert_level(level_id);
        store.upsert_entry(level_id, row.player_id.as_str(), row.raw_score, rank, evaluation);
        placement = placement + 1;
    }
}

/// Takes in what the source answered for one leaderboard.  A leaderboard
/// that was found is taken in whole, then the level's catalog id and
/// display name are recorded; one that was not found is passed over, and
/// the store stays as it is.  Tells whether the leaderboard was found.
pub fn update_certain_leaderboard(
    store: &mut ScoreStore,
    lb_name: &str,
    file_id: &str,
    name: &str,
    fetched: &LeaderboardFetch,
) -> (found: bool)
    requires
        old(store).wf(),
    ensures
        final(store).wf(),
        found == (fetched is Found),
        match fetched {
            LeaderboardFetch::Found(entries) => final(store)@ == ingested(
                old(store)@,
                lb_name@,
                file_id@,
                name@,
                entries@,
            ),
            LeaderboardFetch::NotFound => final(store)@ == old(store)@,
        },
{
    match fetched {
        LeaderboardFetch::Found(entries) => {
            upsert_leaderboard(store, lb_name, entries);
            store.upsert_level(lb_name);
            store.set_level_catalog_info(lb_name, file_id, name);
            true
        },
        LeaderboardFetch::NotFound => false,
    }
}

} // verus!
