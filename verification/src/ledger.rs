//! The score ledger: what the store holds, as mathematics.
//!
//! A ledger is three keyed tables (players, levels, leaderboard entries)
//! and two floors.  Counts, sums and evaluations of players are not stored
//! in it: they are functions of the entries, so they cannot drift from
//! them.  A level's evaluation sum is stored, because it changes only when
//! the sums are recomputed.
use crate::table::{
    distinct_keys, ensured, holds, lemma_ensured, lemma_put, lemma_slot_is, lemma_slot_of_held,
    lemma_tally_capped, lemma_tally_of_units, lemma_tally_put, lemma_tally_zero, put, slot, tally,
    value_at,
};
use vstd::prelude::*;

verus! {

/// What identifies a leaderboard entry: a player has at most one entry on
/// a level.
pub struct EntryKey {
    pub level: Seq<char>,
    pub player: Seq<char>,
}

/// What an entry records, always written together.
pub struct EntryFacts {
    pub raw_score: i32,
    pub rank: u64,
    pub evaluation: u32,
}

/// What a level records besides its entries.
pub struct LevelFacts {
    pub evaluation_sum: nat,
    pub source_file_id: Option<Seq<char>>,
    pub display_name: Option<Seq<char>>,
}

/// The state of a score store.
pub struct Ledger {
    /// Player id and cached display name, in order of arrival.
    pub players: Seq<(Seq<char>, Option<Seq<char>>)>,
    /// Level id and what the level records, in order of arrival.
    pub levels: Seq<(Seq<char>, LevelFacts)>,
    /// The entries, in order of arrival.
    pub entries: Seq<(EntryKey, EntryFacts)>,
    /// The least divisor of a player's evaluation.
    pub floor_players: nat,
    /// The least divisor of a level's evaluation.
    pub floor_levels: nat,
}

/// One for each entry of the player.
pub open spec fn entries_of_player(player: Seq<char>) -> spec_fn((EntryKey, EntryFacts)) -> nat {
    |row: (EntryKey, EntryFacts)|
        if row.0.player == player {
            1nat
        } else {
            0nat
        }
}

/// The evaluation of each entry of the player.
pub open spec fn awards_of_player(player: Seq<char>) -> spec_fn((EntryKey, EntryFacts)) -> nat {
    |row: (EntryKey, EntryFacts)|
        if row.0.player == player {
            row.1.evaluation as nat
        } else {
            0nat
        }
}

/// One for each entry on the level.
pub open spec fn entries_on_level(level: Seq<char>) -> spec_fn((EntryKey, EntryFacts)) -> nat {
    |row: (EntryKey, EntryFacts)|
        if row.0.level == level {
            1nat
        } else {
            0nat
        }
}

/// The larger of a count and a floor.
pub open spec fn at_least(count: nat, floor: nat) -> nat {
    if count > floor {
        count
    } else {
        floor
    }
}

/// A level as it is when first registered.
pub open spec fn new_level() -> LevelFacts {
    LevelFacts { evaluation_sum: 0, source_file_id: None, display_name: None }
}

impl Ledger {
    /// The number of entries that the player has, over all levels.
    pub open spec fn player_entry_count(self, player: Seq<char>) -> nat {
        tally(self.entries, entries_of_player(player))
    }

    /// The sum of the evaluations of the player's entries.
    pub open spec fn player_evaluation_sum(self, player: Seq<char>) -> nat {
        tally(self.entries, awards_of_player(player))
    }

    /// The player's evaluation: the sum over the entry count, which counts
    /// as at least the floor.
    pub open spec fn player_evaluation(self, player: Seq<char>) -> nat {
        self.player_evaluation_sum(player) / at_least(
            self.player_entry_count(player),
            self.floor_players,
        )
    }

    /// The number of entries on the level.
    pub open spec fn level_entry_count(self, level: Seq<char>) -> nat {
        tally(self.entries, entries_on_level(level))
    }

    /// For each entry on the level, the evaluation of the player who holds
    /// it.
    pub open spec fn standing_on_level(self, level: Seq<char>) -> spec_fn(
        (EntryKey, EntryFacts),
    ) -> nat {
        |row: (EntryKey, EntryFacts)|
            if row.0.level == level {
                self.player_evaluation(row.0.player)
            } else {
                0nat
            }
    }

    /// What the level's evaluation sum is once recomputed: the sum of the
    /// evaluations of the players who hold an entry on it.
    pub open spec fn settled_sum(self, level: Seq<char>) -> nat {
        tally(self.entries, self.standing_on_level(level))
    }

    /// The level's evaluation sum as last recomputed.
    pub open spec fn level_evaluation_sum(self, level: Seq<char>) -> nat {
        value_at(self.levels, level).evaluation_sum
    }

    /// The level's evaluation: its sum over its entry count, which counts
    /// as at least the floor.
    pub open spec fn level_evaluation(self, level: Seq<char>) -> nat {
        self.level_evaluation_sum(level) / at_least(
            self.level_entry_count(level),
            self.floor_levels,
        )
    }

    /// No key occurs twice in a table, every entry's player and level are
    /// registered, and the floors are positive.
    pub open spec fn valid(self) -> bool {
        &&& self.floor_players >= 1
        &&& self.floor_levels >= 1
        &&& distinct_keys(self.players)
        &&& distinct_keys(self.levels)
        &&& distinct_keys(self.entries)
        &&& forall|i: int|
            0 <= i < self.entries.len() ==> holds(self.players, (#[trigger] self.entries[i]).0.player)
                && holds(self.levels, self.entries[i].0.level)
    }

    /// The ledger with no rows.
    pub open spec fn empty(floor_players: nat, floor_levels: nat) -> Ledger {
        Ledger {
            players: Seq::empty(),
            levels: Seq::empty(),
            entries: Seq::empty(),
            floor_players,
            floor_levels,
        }
    }

    /// After the player is registered, or its display name overwritten.
    pub open spec fn with_player(self, player: Seq<char>, display_name: Seq<char>) -> Ledger {
        Ledger { players: put(self.players, player, Some(display_name)), ..self }
    }

    /// After the level is registered, if it was not.
    pub open spec fn with_level(self, level: Seq<char>) -> Ledger {
        Ledger { levels: ensured(self.levels, level, new_level()), ..self }
    }

    /// After the level's catalog id and display name are overwritten; a
    /// level that is not registered stays so.
    pub open spec fn with_catalog_info(
        self,
        level: Seq<char>,
        source_file_id: Seq<char>,
        display_name: Seq<char>,
    ) -> Ledger {
        if holds(self.levels, level) {
            Ledger {
                levels: put(
                    self.levels,
                    level,
                    LevelFacts {
                        evaluation_sum: self.level_evaluation_sum(level),
                        source_file_id: Some(source_file_id),
                        display_name: Some(display_name),
                    },
                ),
                ..self
            }
        } else {
            self
        }
    }

    /// After the entry of `key` is created or replaced.  The player and
    /// the level are registered by it where they were not.
    pub open spec fn with_entry(self, key: EntryKey, facts: EntryFacts) -> Ledger {
        Ledger {
            players: ensured(self.players, key.player, None),
            levels: ensured(self.levels, key.level, new_level()),
            entries: put(self.entries, key, facts),
            ..self
        }
    }

    /// After every level's evaluation sum is set to its settled sum.
    pub open spec fn recomputed(self) -> Ledger {
        Ledger {
            levels: Seq::new(
                self.levels.len(),
                |i: int|
                    (
                        self.levels[i].0,
                        LevelFacts {
                            evaluation_sum: self.settled_sum(self.levels[i].0),
                            ..self.levels[i].1
                        },
                    ),
            ),
            ..self
        }
    }
}

/// Registering a player keeps the ledger valid and touches no entry, so no
/// count, sum or evaluation; doing it twice is doing it once.
pub proof fn lemma_with_player(ledger: Ledger, player: Seq<char>, display_name: Seq<char>)
    requires
        ledger.valid(),
    ensures
        ledger.with_player(player, display_name).valid(),
        ledger.with_player(player, display_name).entries == ledger.entries,
        ledger.with_player(player, display_name).levels == ledger.levels,
        ledger.with_player(player, display_name).with_player(player, display_name)
            == ledger.with_player(player, display_name),
{
    let after = ledger.with_player(player, display_name);
    lemma_put(ledger.players, player, Some(display_name));
    assert forall|i: int| 0 <= i < after.entries.len() implies holds(
        after.players,
        (#[trigger] after.entries[i]).0.player,
    ) && holds(after.levels, after.entries[i].0.level) by {
        let q = ledger.entries[i].0.player;
        assert(holds(ledger.players, q));
    }
    lemma_slot_of_held(after.players, player);
    assert(put(after.players, player, Some(display_name)) =~= after.players);
}

/// Registering a level keeps the ledger valid and touches no entry and no
/// other level; doing it twice is doing it once.
pub proof fn lemma_with_level(ledger: Ledger, level: Seq<char>)
    requires
        ledger.valid(),
    ensures
        ledger.with_level(level).valid(),
        ledger.with_level(level).entries == ledger.entries,
        ledger.with_level(level).players == ledger.players,
        ledger.with_level(level).with_level(level) == ledger.with_level(level),
        holds(ledger.levels, level) ==> ledger.with_level(level) == ledger,
{
    let after = ledger.with_level(level);
    lemma_ensured(ledger.levels, level, new_level());
    assert forall|i: int| 0 <= i < after.entries.len() implies holds(
        after.players,
        (#[trigger] after.entries[i]).0.player,
    ) && holds(after.levels, after.entries[i].0.level) by {
        let l = ledger.entries[i].0.level;
        assert(holds(ledger.levels, l));
    }
}

/// Overwriting a level's catalog info keeps the ledger valid, the level's
/// evaluation sum and every entry; doing it twice is doing it once.
pub proof fn lemma_with_catalog_info(
    ledger: Ledger,
    level: Seq<char>,
    source_file_id: Seq<char>,
    display_name: Seq<char>,
)
    requires
        ledger.valid(),
    ensures
        ledger.with_catalog_info(level, source_file_id, display_name).valid(),
        ledger.with_catalog_info(level, source_file_id, display_name).entries == ledger.entries,
        ledger.with_catalog_info(level, source_file_id, display_name).players == ledger.players,
        holds(ledger.levels, level) ==> ledger.with_catalog_info(
            level,
            source_file_id,
            display_name,
        ).level_evaluation_sum(level) == ledger.level_evaluation_sum(level),
        ledger.with_catalog_info(level, source_file_id, display_name).with_catalog_info(
            level,
            source_file_id,
            display_name,
        ) == ledger.with_catalog_info(level, source_file_id, display_name),
{
    let after = ledger.with_catalog_info(level, source_file_id, display_name);
    if holds(ledger.levels, level) {
        let facts = LevelFacts {
            evaluation_sum: ledger.level_evaluation_sum(level),
            source_file_id: Some(source_file_id),
            display_name: Some(display_name),
        };
        lemma_put(ledger.levels, level, facts);
        assert forall|i: int| 0 <= i < after.entries.len() implies holds(
            after.players,
            (#[trigger] after.entries[i]).0.player,
        ) && holds(after.levels, after.entries[i].0.level) by {
            let l = ledger.entries[i].0.level;
            assert(holds(ledger.levels, l));
        }
        lemma_slot_of_held(after.levels, level);
        assert(put(after.levels, level, facts) =~= after.levels);
    }
}

/// A player that is not registered has no entry, so its count, sum and
/// evaluation are zero.
pub proof fn lemma_unregistered_player(ledger: Ledger, player: Seq<char>)
    requires
        ledger.valid(),
        !holds(ledger.players, player),
    ensures
        ledger.player_entry_count(player) == 0,
        ledger.player_evaluation_sum(player) == 0,
        ledger.player_evaluation(player) == 0,
{
    lemma_tally_zero(ledger.entries, entries_of_player(player));
    lemma_tally_zero(ledger.entries, awards_of_player(player));
}

/// A level that is not registered has no entry.
pub proof fn lemma_unregistered_level(ledger: Ledger, level: Seq<char>)
    requires
        ledger.valid(),
        !holds(ledger.levels, level),
    ensures
        ledger.level_entry_count(level) == 0,
{
    lemma_tally_zero(ledger.entries, entries_on_level(level));
}

/// Writing an entry keeps the ledger valid.
pub proof fn lemma_with_entry(ledger: Ledger, key: EntryKey, facts: EntryFacts)
    requires
        ledger.valid(),
    ensures
        ledger.with_entry(key, facts).valid(),
{
    let after = ledger.with_entry(key, facts);
    lemma_ensured(ledger.players, key.player, None);
    lemma_ensured(ledger.levels, key.level, new_level());
    lemma_put(ledger.entries, key, facts);
    assert forall|i: int| 0 <= i < after.entries.len() implies holds(
        after.players,
        (#[trigger] after.entries[i]).0.player,
    ) && holds(after.levels, after.entries[i].0.level) by {
        let row = after.entries[i];
        if row.0 != key {
            if holds(ledger.entries, key) {
                assert(row == ledger.entries[i]);
            } else {
                assert(row == ledger.entries[i]);
            }
            assert(holds(ledger.players, ledger.entries[i].0.player));
            assert(holds(ledger.levels, ledger.entries[i].0.level));
        }
    }
}

/// What writing an entry does to a player's aggregates.  A new entry adds
/// one to its player's entry count and its evaluation to the player's sum;
/// a replaced entry leaves the count and moves the sum by the difference of
/// the evaluations.  Every other player keeps both.
pub proof fn lemma_entry_moves_player(
    ledger: Ledger,
    key: EntryKey,
    facts: EntryFacts,
    player: Seq<char>,
)
    ensures
        ledger.with_entry(key, facts).player_entry_count(player) == ledger.player_entry_count(
            player,
        ) + (if player == key.player && !holds(ledger.entries, key) {
            1nat
        } else {
            0nat
        }),
        ledger.with_entry(key, facts).player_evaluation_sum(player) + (if player == key.player
            && holds(ledger.entries, key) {
            value_at(ledger.entries, key).evaluation as nat
        } else {
            0nat
        }) == ledger.player_evaluation_sum(player) + (if player == key.player {
            facts.evaluation as nat
        } else {
            0nat
        }),
{
    lemma_tally_put(ledger.entries, key, facts, entries_of_player(player));
    lemma_tally_put(ledger.entries, key, facts, awards_of_player(player));
}

/// What writing an entry does to a level's entry count: a new entry adds
/// one to its level's count, and nothing else changes any count.
pub proof fn lemma_entry_moves_level(
    ledger: Ledger,
    key: EntryKey,
    facts: EntryFacts,
    level: Seq<char>,
)
    ensures
        ledger.with_entry(key, facts).level_entry_count(level) == ledger.level_entry_count(level)
            + (if level == key.level && !holds(ledger.entries, key) {
            1nat
        } else {
            0nat
        }),
{
    lemma_tally_put(ledger.entries, key, facts, entries_on_level(level));
}

/// A player's entries are among the ledger's, and its evaluation sum is at
/// most its entry count times the largest evaluation; so its evaluation is
/// at most the largest evaluation.
pub proof fn lemma_player_bounds(ledger: Ledger, player: Seq<char>)
    requires
        ledger.floor_players >= 1,
    ensures
        ledger.player_entry_count(player) <= ledger.entries.len(),
        ledger.player_evaluation_sum(player) <= u32::MAX * ledger.player_entry_count(player),
        ledger.player_evaluation(player) <= u32::MAX,
{
    lemma_tally_of_units(ledger.entries, entries_of_player(player));
    lemma_tally_capped(
        ledger.entries,
        awards_of_player(player),
        entries_of_player(player),
        u32::MAX as nat,
    );
    let sum = ledger.player_evaluation_sum(player);
    let count = ledger.player_entry_count(player);
    let divisor = at_least(count, ledger.floor_players);
    assert(sum / divisor <= u32::MAX) by (nonlinear_arith)
        requires
            sum <= u32::MAX * count,
            count <= divisor,
            1 <= divisor,
    ;
}

/// A level's entries are among the ledger's, and the sum of its players'
/// evaluations over any first rows of the entries is at most that many
/// times the largest evaluation.
pub proof fn lemma_level_bounds(ledger: Ledger, level: Seq<char>, rows: int)
    requires
        ledger.floor_players >= 1,
        0 <= rows <= ledger.entries.len(),
    ensures
        ledger.level_entry_count(level) <= ledger.entries.len(),
        tally(ledger.entries.take(rows), ledger.standing_on_level(level)) <= u32::MAX * rows,
{
    lemma_tally_of_units(ledger.entries, entries_on_level(level));
    let first = ledger.entries.take(rows);
    let one = |row: (EntryKey, EntryFacts)| 1nat;
    assert forall|i: int| 0 <= i < first.len() implies (ledger.standing_on_level(level))(
        #[trigger] first[i],
    ) <= (u32::MAX as nat) * one(first[i]) by {
        lemma_player_bounds(ledger, first[i].0.player);
    }
    lemma_tally_capped(first, ledger.standing_on_level(level), one, u32::MAX as nat);
    lemma_tally_of_units(first, one);
    let t = tally(first, one);
    assert((u32::MAX as nat) * t <= u32::MAX * rows) by (nonlinear_arith)
        requires
            t <= rows,
    ;
}

/// Recomputing keeps the ledger valid, every entry, every player and every
/// level's catalog info, and sets every level's sum to its settled sum.
pub proof fn lemma_recomputed(ledger: Ledger)
    requires
        ledger.valid(),
    ensures
        ledger.recomputed().valid(),
        ledger.recomputed().entries == ledger.entries,
        ledger.recomputed().players == ledger.players,
        forall|level: Seq<char>|
            holds(ledger.levels, level) <==> #[trigger] holds(ledger.recomputed().levels, level),
        forall|level: Seq<char>|
            holds(ledger.levels, level) ==> #[trigger] ledger.recomputed().level_evaluation_sum(
                level,
            ) == ledger.settled_sum(level),
{
    let after = ledger.recomputed();
    assert forall|i: int, j: int| 0 <= i < j < after.levels.len() implies (
    #[trigger] after.levels[i]).0 != (#[trigger] after.levels[j]).0 by {
        assert(ledger.levels[i].0 != ledger.levels[j].0);
    }
    assert forall|level: Seq<char>| holds(ledger.levels, level) <==> #[trigger] holds(
        after.levels,
        level,
    ) by {
        if holds(ledger.levels, level) {
            let i = slot(ledger.levels, level);
            assert(after.levels[i].0 == level);
        }
        if holds(after.levels, level) {
            let i = slot(after.levels, level);
            assert(ledger.levels[i].0 == level);
        }
    }
    assert forall|i: int| 0 <= i < after.entries.len() implies holds(
        after.players,
        (#[trigger] after.entries[i]).0.player,
    ) && holds(after.levels, after.entries[i].0.level) by {
        assert(holds(ledger.levels, ledger.entries[i].0.level));
    }
    assert forall|level: Seq<char>| holds(ledger.levels, level) implies #[trigger] after.level_evaluation_sum(
    level) == ledger.settled_sum(level) by {
        let i = slot(ledger.levels, level);
        lemma_slot_is(after.levels, level, i);
    }
}

/// Recomputing a second time, with no entry written in between, changes
/// nothing: the sums depend on the entries alone.
pub proof fn lemma_recomputed_twice(ledger: Ledger)
    ensures
        ledger.recomputed().recomputed() == ledger.recomputed(),
{
    let once = ledger.recomputed();
    let twice = once.recomputed();
    assert forall|i: int| 0 <= i < once.levels.len() implies twice.levels[i] == once.levels[i] by {
        let level = once.levels[i].0;
        assert(once.standing_on_level(level) =~= ledger.standing_on_level(level));
    }
    assert(twice.levels =~= once.levels);
}

} // verus!
