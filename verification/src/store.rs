//! The score store: players, levels and leaderboard entries, with the
//! players' aggregates kept in step with every entry write and the levels'
//! evaluation sums recomputed on demand.
use crate::ledger::{
    at_least, lemma_entry_moves_level, lemma_entry_moves_player, lemma_level_bounds,
    lemma_player_bounds, lemma_recomputed, lemma_unregistered_level, lemma_unregistered_player,
    lemma_with_catalog_info, lemma_with_entry, lemma_with_level, lemma_with_player, new_level,
    EntryFacts, EntryKey, Ledger, LevelFacts,
};
use crate::table::{
    distinct_keys, ensured, holds, lemma_ensured, lemma_slot_is, lemma_tally_push, put, slot,
    tally, value_at,
};
use vstd::hash_map::StringHashMap;
use vstd::prelude::*;
use vstd::string::*;

verus! {

/// The floor of a player's divisor unless the store is made with another.
pub const REFERENCE_PLAYER_FLOOR: u64 = 100;

/// The floor of a level's divisor unless the store is made with another.
pub const REFERENCE_LEVEL_FLOOR: u64 = 20;

/// A ranked player.
#[derive(Debug)]
pub struct Player {
    pub id: String,
    /// The number of entries that the player has, over all levels.
    pub entry_count: u64,
    /// The sum of the evaluations of those entries.
    pub evaluation_sum: u128,
    /// The sum over the entry count, which counts as at least the floor.
    pub evaluation: u128,
    pub display_name: Option<String>,
}

/// A level with a leaderboard.
#[derive(Debug)]
pub struct Level {
    pub id: String,
    /// The number of entries on the level.
    pub entry_count: u64,
    /// The sum of the evaluations of the level's players, as last
    /// recomputed.
    pub evaluation_sum: u128,
    /// The sum over the entry count, which counts as at least the floor.
    pub evaluation: u128,
    /// The catalog's id of the level's file.
    pub source_file_id: Option<String>,
    pub display_name: Option<String>,
}

/// One player's result on one level.
#[derive(Debug)]
pub struct LeaderboardEntry {
    pub level_id: String,
    pub player_id: String,
    pub raw_score: i32,
    /// The position on the level's leaderboard, from 1.
    pub rank: u64,
    pub evaluation: u32,
}

/// The characters of a text that may be absent.
pub open spec fn text(name: Option<String>) -> Option<Seq<char>> {
    match name {
        Some(s) => Some(s@),
        None => None,
    }
}

impl Player {
    /// The player's row in the ledger.
    pub open spec fn row(self) -> (Seq<char>, Option<Seq<char>>) {
        (self.id@, text(self.display_name))
    }

    /// The ledger holds the player with this display name, and the
    /// player's aggregates are what the ledger's entries give.
    pub open spec fn stands_in(self, ledger: Ledger) -> bool {
        &&& holds(ledger.players, self.id@)
        &&& value_at(ledger.players, self.id@) == text(self.display_name)
        &&& self.entry_count == ledger.player_entry_count(self.id@)
        &&& self.evaluation_sum == ledger.player_evaluation_sum(self.id@)
        &&& self.evaluation == ledger.player_evaluation(self.id@)
    }
}

impl Level {
    /// The level's row in the ledger.
    pub open spec fn row(self) -> (Seq<char>, LevelFacts) {
        (
            self.id@,
            LevelFacts {
                evaluation_sum: self.evaluation_sum as nat,
                source_file_id: text(self.source_file_id),
                display_name: text(self.display_name),
            },
        )
    }

    /// The ledger holds the level with these facts, and the level's entry
    /// count and evaluation are what the ledger's entries give.
    pub open spec fn stands_in(self, ledger: Ledger) -> bool {
        &&& holds(ledger.levels, self.id@)
        &&& value_at(ledger.levels, self.id@) == self.row().1
        &&& self.entry_count == ledger.level_entry_count(self.id@)
        &&& self.evaluation == ledger.level_evaluation(self.id@)
    }
}

impl LeaderboardEntry {
    /// The entry's row in the ledger.
    pub open spec fn row(self) -> (EntryKey, EntryFacts) {
        (
            EntryKey { level: self.level_id@, player: self.player_id@ },
            EntryFacts { raw_score: self.raw_score, rank: self.rank, evaluation: self.evaluation },
        )
    }

    /// The ledger holds the entry with these facts.
    pub open spec fn stands_in(self, ledger: Ledger) -> bool {
        &&& holds(ledger.entries, self.row().0)
        &&& value_at(ledger.entries, self.row().0) == self.row().1
    }
}

/// The store.  Its rows are read through `player`, `level`, `entry` and
/// the three row lists, and written through the five operations only.
///
/// The rows stand in the order of their arrival.  Beside them the store
/// keeps, for every player and every level, the position of its row, and
/// for every level the positions of its entries by player, so that no
/// operation has to search the rows.
pub struct ScoreStore {
    players: Vec<Player>,
    levels: Vec<Level>,
    entries: Vec<LeaderboardEntry>,
    floor_players: u64,
    floor_levels: u64,
    player_index: StringHashMap<usize>,
    level_index: StringHashMap<usize>,
    entry_index: Vec<StringHashMap<usize>>,
}

impl View for ScoreStore {
    type V = Ledger;

    closed spec fn view(&self) -> Ledger {
        Ledger {
            players: Seq::new(self.players@.len(), |i: int| self.players@[i].row()),
            levels: Seq::new(self.levels@.len(), |i: int| self.levels@[i].row()),
            entries: Seq::new(self.entries@.len(), |i: int| self.entries@[i].row()),
            floor_players: self.floor_players as nat,
            floor_levels: self.floor_levels as nat,
        }
    }
}

/// Whether `index` sends every key to its position in `keys`, and holds
/// nothing else.
spec fn indexes(index: Map<Seq<char>, usize>, keys: Seq<Seq<char>>) -> bool {
    &&& forall|i: int|
        0 <= i < keys.len() ==> index.contains_key(#[trigger] keys[i]) && index[keys[i]] == i
    &&& forall|key: Seq<char>| #[trigger]
        index.contains_key(key) ==> index[key] < keys.len() && keys[index[key] as int] == key
}

/// Whether `index` sends every player with an entry on `level` to the
/// position of that entry in `keys`, and holds nothing else.
spec fn indexes_level(index: Map<Seq<char>, usize>, keys: Seq<EntryKey>, level: Seq<char>) -> bool {
    &&& forall|i: int|
        0 <= i < keys.len() && (#[trigger] keys[i]).level == level ==> index.contains_key(
            keys[i].player,
        ) && index[keys[i].player] == i
    &&& forall|player: Seq<char>| #[trigger]
        index.contains_key(player) ==> index[player] < keys.len() && keys[index[player] as int]
            == (EntryKey { level, player })
}

proof fn lemma_indexes_push(index: Map<Seq<char>, usize>, keys: Seq<Seq<char>>, key: Seq<char>)
    requires
        indexes(index, keys),
        !index.contains_key(key),
        keys.len() < usize::MAX,
    ensures
        indexes(index.insert(key, keys.len() as usize), keys.push(key)),
{
    let grown = keys.push(key);
    let after = index.insert(key, keys.len() as usize);
    assert forall|i: int| 0 <= i < grown.len() implies after.contains_key(#[trigger] grown[i])
        && after[grown[i]] == i by {
        if i < keys.len() {
            assert(index.contains_key(keys[i]));
        }
    }
    assert forall|other: Seq<char>| #[trigger] after.contains_key(other) implies after[other]
        < grown.len() && grown[after[other] as int] == other by {
        if other != key {
            assert(index.contains_key(other));
        }
    }
}

proof fn lemma_indexes_level_push(
    index: Map<Seq<char>, usize>,
    keys: Seq<EntryKey>,
    key: EntryKey,
    level: Seq<char>,
)
    requires
        indexes_level(index, keys, level),
        keys.len() < usize::MAX,
        key.level == level ==> !index.contains_key(key.player),
    ensures
        key.level == level ==> indexes_level(
            index.insert(key.player, keys.len() as usize),
            keys.push(key),
            level,
        ),
        key.level != level ==> indexes_level(index, keys.push(key), level),
{
    let grown = keys.push(key);
    if key.level == level {
        let after = index.insert(key.player, keys.len() as usize);
        assert forall|i: int| 0 <= i < grown.len() && (#[trigger] grown[i]).level
            == level implies after.contains_key(grown[i].player) && after[grown[i].player]
            == i by {
            if i < keys.len() {
                assert(keys[i].level == level);
                assert(index.contains_key(keys[i].player));
            }
        }
        assert forall|player: Seq<char>| #[trigger] after.contains_key(player) implies after[player]
            < grown.len() && grown[after[player] as int] == (EntryKey { level, player }) by {
            if player != key.player {
                assert(index.contains_key(player));
            }
        }
    } else {
        assert forall|i: int| 0 <= i < grown.len() && (#[trigger] grown[i]).level
            == level implies index.contains_key(grown[i].player) && index[grown[i].player]
            == i by {
            assert(keys[i].level == level);
        }
        assert forall|player: Seq<char>| #[trigger] index.contains_key(player) implies index[player]
            < grown.len() && grown[index[player] as int] == (EntryKey { level, player }) by {
            assert(index[player] < keys.len());
        }
    }
}

/// The larger of a count and a floor.
fn divisor(count: u64, floor: u64) -> (d: u128)
    ensures
        d == at_least(count as nat, floor as nat),
{
    if count > floor {
        count as u128
    } else {
        floor as u128
    }
}

impl ScoreStore {
    spec fn player_settled(&self, p: Player) -> bool {
        &&& p.entry_count == self@.player_entry_count(p.id@)
        &&& p.evaluation_sum == self@.player_evaluation_sum(p.id@)
        &&& p.evaluation == self@.player_evaluation(p.id@)
    }

    spec fn level_settled(&self, l: Level) -> bool {
        &&& l.entry_count == self@.level_entry_count(l.id@)
        &&& l.evaluation == l.evaluation_sum as nat / at_least(
            self@.level_entry_count(l.id@),
            self@.floor_levels,
        )
    }

    spec fn player_ids(&self) -> Seq<Seq<char>> {
        Seq::new(self.players@.len(), |i: int| self.players@[i].id@)
    }

    spec fn level_ids(&self) -> Seq<Seq<char>> {
        Seq::new(self.levels@.len(), |i: int| self.levels@[i].id@)
    }

    spec fn entry_keys(&self) -> Seq<EntryKey> {
        Seq::new(self.entries@.len(), |i: int| self.entries@[i].row().0)
    }

    /// Every stored count, sum and evaluation is what the ledger's entries
    /// give.
    spec fn settled(&self) -> bool {
        &&& forall|i: int|
            0 <= i < self.players@.len() ==> self.player_settled(#[trigger] self.players@[i])
        &&& forall|i: int|
            0 <= i < self.levels@.len() ==> self.level_settled(#[trigger] self.levels@[i])
    }

    /// The positions that the store keeps are those of the rows.
    spec fn indexed(&self) -> bool {
        &&& indexes(self.player_index@, self.player_ids())
        &&& indexes(self.level_index@, self.level_ids())
        &&& self.entry_index@.len() == self.levels@.len()
        &&& forall|l: int|
            0 <= l < self.levels@.len() ==> indexes_level(
                (#[trigger] self.entry_index@[l])@,
                self.entry_keys(),
                self.levels@[l].id@,
            )
    }

    /// The ledger is valid, every stored count, sum and evaluation is what
    /// the ledger's entries give, and every row is found where the store
    /// looks for it.
    pub closed spec fn wf(&self) -> bool {
        &&& self@.valid()
        &&& self.settled()
        &&& self.indexed()
    }

    /// An empty store with the given floors, which must be positive.
    pub fn with_floors(floor_players: u64, floor_levels: u64) -> (r: Option<ScoreStore>)
        ensures
            r is Some <==> floor_players >= 1 && floor_levels >= 1,
            r matches Some(store) ==> store.wf() && store@ == Ledger::empty(
                floor_players as nat,
                floor_levels as nat,
            ),
    {
        if floor_players == 0 || floor_levels == 0 {
            return None;
        }
        let store = ScoreStore {
            players: Vec::new(),
            levels: Vec::new(),
            entries: Vec::new(),
            floor_players,
            floor_levels,
            player_index: StringHashMap::new(),
            level_index: StringHashMap::new(),
            entry_index: Vec::new(),
        };
        proof {
            let empty = Ledger::empty(floor_players as nat, floor_levels as nat);
            assert(store@.players =~= empty.players);
            assert(store@.levels =~= empty.levels);
            assert(store@.entries =~= empty.entries);
        }
        Some(store)
    }

    /// An empty store with the reference floors.
    pub fn new() -> (store: ScoreStore)
        ensures
            store.wf(),
            store@ == Ledger::empty(REFERENCE_PLAYER_FLOOR as nat, REFERENCE_LEVEL_FLOOR as nat),
    {
        let store = ScoreStore {
            players: Vec::new(),
            levels: Vec::new(),
            entries: Vec::new(),
            floor_players: REFERENCE_PLAYER_FLOOR,
            floor_levels: REFERENCE_LEVEL_FLOOR,
            player_index: StringHashMap::new(),
            level_index: StringHashMap::new(),
            entry_index: Vec::new(),
        };
        proof {
            let empty = Ledger::empty(REFERENCE_PLAYER_FLOOR as nat, REFERENCE_LEVEL_FLOOR as nat);
            assert(store@.players =~= empty.players);
            assert(store@.levels =~= empty.levels);
            assert(store@.entries =~= empty.entries);
        }
        store
    }

    fn player_slot(&self, id: &str) -> (r: Option<usize>)
        requires
            self.wf(),
        ensures
            match r {
                Some(i) => i < self.players@.len() && self.players@[i as int].id@ == id@ && holds(
                    self@.players,
                    id@,
                ) && slot(self@.players, id@) == i,
                None => !holds(self@.players, id@),
            },
    {
        match self.player_index.get(id) {
            Some(i) => {
                proof {
                    assert(self.player_ids()[*i as int] == id@);
                    lemma_slot_is(self@.players, id@, *i as int);
                }
                Some(*i)
            },
            None => {
                proof {
                    if holds(self@.players, id@) {
                        let j = slot(self@.players, id@);
                        assert(self.player_ids()[j] == id@);
                    }
                }
                None
            },
        }
    }

    fn level_slot(&self, id: &str) -> (r: Option<usize>)
        requires
            self.wf(),
        ensures
            match r {
                Some(i) => i < self.levels@.len() && self.levels@[i as int].id@ == id@ && holds(
                    self@.levels,
                    id@,
                ) && slot(self@.levels, id@) == i,
                None => !holds(self@.levels, id@),
            },
    {
        match self.level_index.get(id) {
            Some(i) => {
                proof {
                    assert(self.level_ids()[*i as int] == id@);
                    lemma_slot_is(self@.levels, id@, *i as int);
                }
                Some(*i)
            },
            None => {
                proof {
                    if holds(self@.levels, id@) {
                        let j = slot(self@.levels, id@);
                        assert(self.level_ids()[j] == id@);
                    }
                }
                None
            },
        }
    }

    fn entry_slot(&self, level_id: &str, player_id: &str) -> (r: Option<usize>)
        requires
            self.wf(),
        ensures
            match r {
                Some(i) => i < self.entries@.len() && self.entries@[i as int].row().0 == (EntryKey {
                    level: level_id@,
                    player: player_id@,
                }) && holds(self@.entries, EntryKey { level: level_id@, player: player_id@ })
                    && slot(self@.entries, EntryKey { level: level_id@, player: player_id@ }) == i,
                None => !holds(self@.entries, EntryKey { level: level_id@, player: player_id@ }),
            },
    {
        let ghost key = EntryKey { level: level_id@, player: player_id@ };
        proof {
            if holds(self@.entries, key) {
                let j = slot(self@.entries, key);
                assert(self.entry_keys()[j] == key);
                assert(holds(self@.levels, self@.entries[j].0.level));
            }
        }
        match self.level_slot(level_id) {
            Some(l) => {
                match self.entry_index[l].get(player_id) {
                    Some(i) => {
                        proof {
                            assert(self.entry_keys()[*i as int] == key);
                            lemma_slot_is(self@.entries, key, *i as int);
                        }
                        Some(*i)
                    },
                    None => None,
                }
            },
            None => None,
        }
    }

    /// The store's floors: the least divisors of a player's and of a
    /// level's evaluation.
    pub fn floors(&self) -> (r: (u64, u64))
        ensures
            r.0 == self@.floor_players,
            r.1 == self@.floor_levels,
    {
        (self.floor_players, self.floor_levels)
    }

    /// The player with this id, if the store holds one.
    pub fn player(&self, id: &str) -> (r: Option<&Player>)
        requires
            self.wf(),
        ensures
            r is Some <==> holds(self@.players, id@),
            r matches Some(p) ==> p.id@ == id@ && p.stands_in(self@),
    {
        match self.player_slot(id) {
            Some(i) => {
                assert(self.player_settled(self.players@[i as int]));
                assert(self@.players[i as int] == self.players@[i as int].row());
                Some(&self.players[i])
            },
            None => None,
        }
    }

    /// The level with this id, if the store holds one.
    pub fn level(&self, id: &str) -> (r: Option<&Level>)
        requires
            self.wf(),
        ensures
            r is Some <==> holds(self@.levels, id@),
            r matches Some(l) ==> l.id@ == id@ && l.stands_in(self@),
    {
        match self.level_slot(id) {
            Some(i) => {
                assert(self.level_settled(self.levels@[i as int]));
                assert(self@.levels[i as int] == self.levels@[i as int].row());
                Some(&self.levels[i])
            },
            None => None,
        }
    }

    /// The entry of the player on the level, if the store holds one.
    pub fn entry(&self, level_id: &str, player_id: &str) -> (r: Option<&LeaderboardEntry>)
        requires
            self.wf(),
        ensures
            r is Some <==> holds(self@.entries, EntryKey { level: level_id@, player: player_id@ }),
            r matches Some(e) ==> e.level_id@ == level_id@ && e.player_id@ == player_id@
                && e.stands_in(self@),
    {
        match self.entry_slot(level_id, player_id) {
            Some(i) => {
                assert(self@.entries[i as int] == self.entries@[i as int].row());
                Some(&self.entries[i])
            },
            None => None,
        }
    }

    /// The players, in order of arrival.
    pub fn players(&self) -> (r: &Vec<Player>)
        requires
            self.wf(),
        ensures
            r@.len() == self@.players.len(),
            forall|i: int|
                0 <= i < r@.len() ==> (#[trigger] r@[i]).row() == self@.players[i]
                    && r@[i].stands_in(self@),
    {
        proof {
            assert forall|i: int| 0 <= i < self.players@.len() implies (
            #[trigger] self.players@[i]).row() == self@.players[i] && self.players@[i].stands_in(
                self@,
            ) by {
                assert(self.player_settled(self.players@[i]));
                lemma_slot_is(self@.players, self.players@[i].id@, i);
            }
        }
        &self.players
    }

    /// The levels, in order of arrival.
    pub fn levels(&self) -> (r: &Vec<Level>)
        requires
            self.wf(),
        ensures
            r@.len() == self@.levels.len(),
            forall|i: int|
                0 <= i < r@.len() ==> (#[trigger] r@[i]).row() == self@.levels[i]
                    && r@[i].stands_in(self@),
    {
        proof {
            assert forall|i: int| 0 <= i < self.levels@.len() implies (
            #[trigger] self.levels@[i]).row() == self@.levels[i] && self.levels@[i].stands_in(
                self@,
            ) by {
                assert(self.level_settled(self.levels@[i]));
                lemma_slot_is(self@.levels, self.levels@[i].id@, i);
            }
        }
        &self.levels
    }

    /// The entries, in order of arrival.
    pub fn entries(&self) -> (r: &Vec<LeaderboardEntry>)
        requires
            self.wf(),
        ensures
            r@.len() == self@.entries.len(),
            forall|i: int|
                0 <= i < r@.len() ==> (#[trigger] r@[i]).row() == self@.entries[i]
                    && r@[i].stands_in(self@),
    {
        proof {
            assert forall|i: int| 0 <= i < self.entries@.len() implies (
            #[trigger] self.entries@[i]).row() == self@.entries[i] && self.entries@[i].stands_in(
                self@,
            ) by {
                lemma_slot_is(self@.entries, self.entries@[i].row().0, i);
            }
        }
        &self.entries
    }
}

impl ScoreStore {
    /// Appends a row for a player that the store does not hold.
    fn add_player(&mut self, id: &str, display_name: Option<String>) -> (at: usize)
        requires
            old(self).wf(),
            !holds(old(self)@.players, id@),
        ensures
            final(self).wf(),
            final(self)@ == (Ledger {
                players: old(self)@.players.push((id@, text(display_name))),
                ..old(self)@
            }),
            final(self).levels@ == old(self).levels@,
            at == old(self).players@.len(),
            at < final(self).players@.len(),
            final(self).players@[at as int].id@ == id@,
    {
        let ghost before = self@;
        let ghost after = Ledger { players: before.players.push((id@, text(display_name))), ..before };
        proof {
            lemma_unregistered_player(before, id@);
            if self.player_index@.contains_key(id@) {
                let j = self.player_index@[id@] as int;
                assert(self.player_ids()[j] == id@);
                assert(before.players[j].0 == id@);
            }
            assert(distinct_keys(after.players)) by {
                assert forall|i: int, j: int| 0 <= i < j < after.players.len() implies (
                #[trigger] after.players[i]).0 != (#[trigger] after.players[j]).0 by {
                    if j < before.players.len() {
                        assert(before.players[i].0 != before.players[j].0);
                    } else {
                        assert(before.players[i].0 != id@);
                    }
                }
            }
            assert forall|i: int| 0 <= i < after.entries.len() implies holds(
                after.players,
                (#[trigger] after.entries[i]).0.player,
            ) && holds(after.levels, after.entries[i].0.level) by {
                let p = before.entries[i].0.player;
                assert(holds(before.players, p));
                let j = slot(before.players, p);
                assert(after.players[j].0 == p);
            }
        }
        let at: usize = self.players.len();
        self.players.push(
            Player {
                id: String::from_str(id),
                entry_count: 0,
                evaluation_sum: 0,
                evaluation: 0,
                display_name,
            },
        );
        let count: usize = self.players.len();
        self.player_index.insert(String::from_str(id), at);
        proof {
            assert(self@.players =~= after.players);
            assert(self@.levels =~= before.levels);
            assert(self@.entries =~= before.entries);
            assert forall|i: int| 0 <= i < self.players@.len() implies self.player_settled(
                #[trigger] self.players@[i],
            ) by {
                if i < old(self).players@.len() {
                    assert(old(self).player_settled(old(self).players@[i]));
                }
            }
            assert forall|i: int| 0 <= i < self.levels@.len() implies self.level_settled(
                #[trigger] self.levels@[i],
            ) by {
                assert(old(self).level_settled(old(self).levels@[i]));
            }
            lemma_indexes_push(old(self).player_index@, old(self).player_ids(), id@);
            assert(self.player_ids() =~= old(self).player_ids().push(id@));
            assert(self.level_ids() =~= old(self).level_ids());
            assert(self.entry_keys() =~= old(self).entry_keys());
        }
        at
    }

    /// Appends a row for a level that the store does not hold.
    fn add_level(&mut self, id: &str) -> (at: usize)
        requires
            old(self).wf(),
            !holds(old(self)@.levels, id@),
        ensures
            final(self).wf(),
            final(self)@ == old(self)@.with_level(id@),
            final(self).players@ == old(self).players@,
            at == old(self).levels@.len(),
            at < final(self).levels@.len(),
            final(self).levels@[at as int].id@ == id@,
    {
        let ghost before = self@;
        proof {
            lemma_with_level(before, id@);
            lemma_unregistered_level(before, id@);
            if self.level_index@.contains_key(id@) {
                let j = self.level_index@[id@] as int;
                assert(self.level_ids()[j] == id@);
                assert(before.levels[j].0 == id@);
            }
        }
        let at: usize = self.levels.len();
        self.levels.push(
            Level {
                id: String::from_str(id),
                entry_count: 0,
                evaluation_sum: 0,
                evaluation: 0,
                source_file_id: None,
                display_name: None,
            },
        );
        let count: usize = self.levels.len();
        self.level_index.insert(String::from_str(id), at);
        self.entry_index.push(StringHashMap::new());
        proof {
            assert(self@.levels =~= ensured(before.levels, id@, new_level()));
            assert(self@.players =~= before.players);
            assert(self@.entries =~= before.entries);
            assert forall|i: int| 0 <= i < self.players@.len() implies self.player_settled(
                #[trigger] self.players@[i],
            ) by {
                assert(old(self).player_settled(old(self).players@[i]));
            }
            assert forall|i: int| 0 <= i < self.levels@.len() implies self.level_settled(
                #[trigger] self.levels@[i],
            ) by {
                if i < old(self).levels@.len() {
                    assert(old(self).level_settled(old(self).levels@[i]));
                }
            }
            lemma_indexes_push(old(self).level_index@, old(self).level_ids(), id@);
            assert(self.level_ids() =~= old(self).level_ids().push(id@));
            assert(self.player_ids() =~= old(self).player_ids());
            assert(self.entry_keys() =~= old(self).entry_keys());
            assert forall|l: int| 0 <= l < self.levels@.len() implies indexes_level(
                (#[trigger] self.entry_index@[l])@,
                self.entry_keys(),
                self.levels@[l].id@,
            ) by {
                if l < old(self).levels@.len() {
                    assert(indexes_level(
                        old(self).entry_index@[l]@,
                        old(self).entry_keys(),
                        old(self).levels@[l].id@,
                    ));
                } else {
                    assert forall|i: int|
                        0 <= i < self.entry_keys().len() implies (#[trigger] self.entry_keys()[i]).level
                        != id@ by {
                        assert(holds(before.levels, before.entries[i].0.level));
                    }
                }
            }
        }
        at
    }

    /// What holds again after rows were changed in place, their keys left
    /// alone: the positions that the store keeps are still those of the
    /// rows.
    proof fn lemma_keys_kept(&self, before: &ScoreStore)
        requires
            before.indexed(),
            self.player_index == before.player_index,
            self.level_index == before.level_index,
            self.entry_index == before.entry_index,
            self.player_ids() =~= before.player_ids(),
            self.level_ids() =~= before.level_ids(),
            self.entry_keys() =~= before.entry_keys(),
        ensures
            self.indexed(),
    {
        assert(self.levels@.len() == self.level_ids().len());
        assert(before.levels@.len() == before.level_ids().len());
        assert forall|l: int| 0 <= l < self.levels@.len() implies indexes_level(
            (#[trigger] self.entry_index@[l])@,
            self.entry_keys(),
            self.levels@[l].id@,
        ) by {
            assert(self.level_ids()[l] == before.level_ids()[l]);
        }
    }

    /// Registers the player if the store does not hold it, and makes
    /// `display_name` its display name.  No count, sum or evaluation
    /// changes.
    pub fn upsert_player(&mut self, id: &str, display_name: &str)
        requires
            old(self).wf(),
        ensures
            final(self).wf(),
            final(self)@ == old(self)@.with_player(id@, display_name@),
    {
        let name: String = String::from_str(display_name);
        let ghost before = self@;
        proof {
            lemma_with_player(before, id@, display_name@);
        }
        match self.player_slot(id) {
            Some(i) => {
                let row = &mut self.players[i];
                row.display_name = Some(name);
                proof {
                    assert(self@.players =~= put(before.players, id@, Some(display_name@)));
                    assert(self@.levels =~= before.levels);
                    assert(self@.entries =~= before.entries);
                    assert forall|j: int| 0 <= j < self.players@.len() implies self.player_settled(
                        #[trigger] self.players@[j],
                    ) by {
                        assert(old(self).player_settled(old(self).players@[j]));
                    }
                    assert forall|j: int| 0 <= j < self.levels@.len() implies self.level_settled(
                        #[trigger] self.levels@[j],
                    ) by {
                        assert(old(self).level_settled(old(self).levels@[j]));
                    }
                    self.lemma_keys_kept(old(self));
                }
            },
            None => {
                let _ = self.add_player(id, Some(name));
            },
        }
    }

    /// The position of the player's row, which is made if the store does
    /// not hold the player.
    fn ensure_player(&mut self, id: &str) -> (i: usize)
        requires
            old(self).wf(),
        ensures
            final(self).wf(),
            final(self)@ == (Ledger {
                players: ensured(old(self)@.players, id@, None),
                ..old(self)@
            }),
            final(self).levels@ == old(self).levels@,
            i < final(self).players@.len(),
            final(self).players@[i as int].id@ == id@,
    {
        match self.player_slot(id) {
            Some(i) => i,
            None => self.add_player(id, None),
        }
    }

    /// The position of the level's row, which is made if the store does
    /// not hold the level.
    fn ensure_level(&mut self, id: &str) -> (i: usize)
        requires
            old(self).wf(),
        ensures
            final(self).wf(),
            final(self)@ == old(self)@.with_level(id@),
            final(self).players@ == old(self).players@,
            i < final(self).levels@.len(),
            final(self).levels@[i as int].id@ == id@,
    {
        match self.level_slot(id) {
            Some(i) => i,
            None => self.add_level(id),
        }
    }

    /// Registers the level if the store does not hold it.  A level that it
    /// holds keeps everything.
    pub fn upsert_level(&mut self, id: &str)
        requires
            old(self).wf(),
        ensures
            final(self).wf(),
            final(self)@ == old(self)@.with_level(id@),
    {
        let _ = self.ensure_level(id);
    }

    /// Overwrites the level's catalog id and display name.  Nothing
    /// changes if the store does not hold the level.
    pub fn set_level_catalog_info(&mut self, level_id: &str, source_file_id: &str, display_name: &str)
        requires
            old(self).wf(),
        ensures
            final(self).wf(),
            final(self)@ == old(self)@.with_catalog_info(level_id@, source_file_id@, display_name@),
    {
        let file: String = String::from_str(source_file_id);
        let name: String = String::from_str(display_name);
        let ghost before = self@;
        proof {
            lemma_with_catalog_info(before, level_id@, source_file_id@, display_name@);
        }
        match self.level_slot(level_id) {
            Some(i) => {
                let row = &mut self.levels[i];
                row.source_file_id = Some(file);
                row.display_name = Some(name);
                proof {
                    assert(self@.levels =~= before.with_catalog_info(
                        level_id@,
                        source_file_id@,
                        display_name@,
                    ).levels);
                    assert(self@.players =~= before.players);
                    assert(self@.entries =~= before.entries);
                    assert forall|j: int| 0 <= j < self.players@.len() implies self.player_settled(
                        #[trigger] self.players@[j],
                    ) by {
                        assert(old(self).player_settled(old(self).players@[j]));
                    }
                    assert forall|j: int| 0 <= j < self.levels@.len() implies self.level_settled(
                        #[trigger] self.levels@[j],
                    ) by {
                        assert(old(self).level_settled(old(self).levels@[j]));
                    }
                    self.lemma_keys_kept(old(self));
                }
            },
            None => {},
        }
    }

    /// Creates or replaces the entry of the player on the level.  A new
    /// entry adds one to the player's and to the level's entry count and
    /// its evaluation to the player's sum; a replaced entry moves the
    /// player's sum by the difference of the evaluations.  The evaluations
    /// of the player and of the level follow at once.  The player and the
    /// level are registered if the store did not hold them.
    pub fn upsert_entry(
        &mut self,
        level_id: &str,
        player_id: &str,
        raw_score: i32,
        rank: u64,
        evaluation: u32,
    )
        requires
            old(self).wf(),
        ensures
            final(self).wf(),
            final(self)@ == old(self)@.with_entry(
                EntryKey { level: level_id@, player: player_id@ },
                EntryFacts { raw_score, rank, evaluation },
            ),
    {
        let ghost before = self@;
        let ghost key = EntryKey { level: level_id@, player: player_id@ };
        let ghost facts = EntryFacts { raw_score, rank, evaluation };
        let pi: usize = self.ensure_player(player_id);
        let li: usize = self.ensure_level(level_id);
        proof {
            lemma_ensured(before.players, key.player, None);
            lemma_ensured(before.levels, key.level, new_level());
            assert(self@.with_entry(key, facts) == before.with_entry(key, facts));
        }
        match self.entry_slot(level_id, player_id) {
            Some(ei) => self.replace_entry(pi, ei, raw_score, rank, evaluation),
            None => self.add_entry(pi, li, level_id, player_id, raw_score, rank, evaluation),
        }
    }

    /// `upsert_entry` where the store holds the entry, at the row `ei`, of
    /// the player at the row `pi`.
    fn replace_entry(&mut self, pi: usize, ei: usize, raw_score: i32, rank: u64, evaluation: u32)
        requires
            old(self).wf(),
            ei < old(self).entries@.len(),
            pi < old(self).players@.len(),
            old(self).players@[pi as int].id@ == old(self).entries@[ei as int].player_id@,
        ensures
            final(self).wf(),
            final(self)@ == old(self)@.with_entry(
                old(self).entries@[ei as int].row().0,
                EntryFacts { raw_score, rank, evaluation },
            ),
    {
        let ghost before = self@;
        let ghost key = self.entries@[ei as int].row().0;
        let ghost facts = EntryFacts { raw_score, rank, evaluation };
        let ghost after = before.with_entry(key, facts);
        let floor_players: u64 = self.floor_players;
        let previous: u32 = self.entries[ei].evaluation;
        let count: usize = self.entries.len();
        proof {
            assert(before.entries[ei as int] == self.entries@[ei as int].row());
            lemma_slot_is(before.entries, key, ei as int);
            assert(holds(before.players, key.player) && holds(before.levels, key.level));
            lemma_with_entry(before, key, facts);
            lemma_player_bounds(before, key.player);
            lemma_entry_moves_player(before, key, facts, key.player);
            assert(old(self).player_settled(old(self).players@[pi as int]));
            assert(u32::MAX * before.player_entry_count(key.player) <= u32::MAX * count)
                by (nonlinear_arith)
                requires
                    before.player_entry_count(key.player) <= count,
            ;
        }
        let row = &mut self.entries[ei];
        row.raw_score = raw_score;
        row.rank = rank;
        row.evaluation = evaluation;
        let p = &mut self.players[pi];
        p.evaluation_sum = p.evaluation_sum + evaluation as u128 - previous as u128;
        p.evaluation = p.evaluation_sum / divisor(p.entry_count, floor_players);
        proof {
            assert(self@.entries =~= after.entries);
            assert(self@.players =~= after.players);
            assert(self@.levels =~= after.levels);
            assert forall|j: int| 0 <= j < self.players@.len() implies self.player_settled(
                #[trigger] self.players@[j],
            ) by {
                let id = old(self).players@[j].id@;
                assert(old(self).player_settled(old(self).players@[j]));
                lemma_entry_moves_player(before, key, facts, id);
                if j != pi as int {
                    assert(before.players[j].0 != before.players[pi as int].0);
                }
            }
            assert forall|j: int| 0 <= j < self.levels@.len() implies self.level_settled(
                #[trigger] self.levels@[j],
            ) by {
                let id = old(self).levels@[j].id@;
                assert(old(self).level_settled(old(self).levels@[j]));
                lemma_entry_moves_level(before, key, facts, id);
            }
            self.lemma_keys_kept(old(self));
        }
    }

    /// `upsert_entry` where the store does not hold the entry, for the
    /// player at the row `pi` and the level at the row `li`.
    fn add_entry(
        &mut self,
        pi: usize,
        li: usize,
        level_id: &str,
        player_id: &str,
        raw_score: i32,
        rank: u64,
        evaluation: u32,
    )
        requires
            old(self).wf(),
            pi < old(self).players@.len(),
            old(self).players@[pi as int].id@ == player_id@,
            li < old(self).levels@.len(),
            old(self).levels@[li as int].id@ == level_id@,
            !holds(old(self)@.entries, EntryKey { level: level_id@, player: player_id@ }),
        ensures
            final(self).wf(),
            final(self)@ == old(self)@.with_entry(
                EntryKey { level: level_id@, player: player_id@ },
                EntryFacts { raw_score, rank, evaluation },
            ),
    {
        let ghost before = self@;
        let ghost key = EntryKey { level: level_id@, player: player_id@ };
        let ghost facts = EntryFacts { raw_score, rank, evaluation };
        let ghost after = before.with_entry(key, facts);
        let floor_players: u64 = self.floor_players;
        let floor_levels: u64 = self.floor_levels;
        proof {
            lemma_with_entry(before, key, facts);
            assert(before.players[pi as int].0 == key.player);
            assert(before.levels[li as int].0 == key.level);
            lemma_slot_is(before.players, key.player, pi as int);
            lemma_slot_is(before.levels, key.level, li as int);
            lemma_player_bounds(before, key.player);
            lemma_player_bounds(after, key.player);
            lemma_entry_moves_player(before, key, facts, key.player);
            lemma_entry_moves_level(before, key, facts, key.level);
            lemma_level_bounds(after, key.level, 0);
            assert(old(self).player_settled(old(self).players@[pi as int]));
            assert(old(self).level_settled(old(self).levels@[li as int]));
            assert(indexes_level(
                old(self).entry_index@[li as int]@,
                old(self).entry_keys(),
                level_id@,
            ));
            if self.entry_index@[li as int]@.contains_key(player_id@) {
                let j = self.entry_index@[li as int]@[player_id@] as int;
                assert(self.entry_keys()[j] == key);
                assert(before.entries[j].0 == key);
            }
        }
        let at: usize = self.entries.len();
        self.entries.push(
            LeaderboardEntry {
                level_id: String::from_str(level_id),
                player_id: String::from_str(player_id),
                raw_score,
                rank,
                evaluation,
            },
        );
        let count: usize = self.entries.len();
        let positions = &mut self.entry_index[li];
        positions.insert(String::from_str(player_id), at);
        proof {
            assert(after.entries.len() == count);
            assert(u32::MAX * before.player_entry_count(key.player) <= u32::MAX * count)
                by (nonlinear_arith)
                requires
                    before.player_entry_count(key.player) <= count,
            ;
        }
        let p = &mut self.players[pi];
        p.entry_count = p.entry_count + 1;
        p.evaluation_sum = p.evaluation_sum + evaluation as u128;
        p.evaluation = p.evaluation_sum / divisor(p.entry_count, floor_players);
        let l = &mut self.levels[li];
        l.entry_count = l.entry_count + 1;
        l.evaluation = l.evaluation_sum / divisor(l.entry_count, floor_levels);
        proof {
            assert(self@.entries =~= after.entries);
            assert(self@.players =~= after.players);
            assert(self@.levels =~= after.levels);
            assert forall|j: int| 0 <= j < self.players@.len() implies self.player_settled(
                #[trigger] self.players@[j],
            ) by {
                let id = old(self).players@[j].id@;
                assert(old(self).player_settled(old(self).players@[j]));
                lemma_entry_moves_player(before, key, facts, id);
                if j != pi as int {
                    assert(before.players[j].0 != before.players[pi as int].0);
                }
            }
            assert forall|j: int| 0 <= j < self.levels@.len() implies self.level_settled(
                #[trigger] self.levels@[j],
            ) by {
                let id = old(self).levels@[j].id@;
                assert(old(self).level_settled(old(self).levels@[j]));
                lemma_entry_moves_level(before, key, facts, id);
                if j != li as int {
                    assert(before.levels[j].0 != before.levels[li as int].0);
                }
            }
            assert(self.player_ids() =~= old(self).player_ids());
            assert(self.level_ids() =~= old(self).level_ids());
            assert(self.entry_keys() =~= old(self).entry_keys().push(key));
            assert forall|l: int| 0 <= l < self.levels@.len() implies indexes_level(
                (#[trigger] self.entry_index@[l])@,
                self.entry_keys(),
                self.levels@[l].id@,
            ) by {
                let level = old(self).levels@[l].id@;
                assert(indexes_level(old(self).entry_index@[l]@, old(self).entry_keys(), level));
                if l != li as int {
                    assert(before.levels[l].0 != before.levels[li as int].0);
                }
                lemma_indexes_level_push(
                    old(self).entry_index@[l]@,
                    old(self).entry_keys(),
                    key,
                    level,
                );
            }
        }
    }

    /// Sets every level's evaluation sum to the sum of the evaluations of
    /// the players who hold an entry on it, and its evaluation to that sum
    /// over its entry count, which counts as at least the floor.
    pub fn recompute_all_level_sums(&mut self)
        requires
            old(self).wf(),
        ensures
            final(self).wf(),
            final(self)@ == old(self)@.recomputed(),
    {
        let ghost before = self@;
        let levels: usize = self.levels.len();
        let mut sums: Vec<u128> = Vec::new();
        let mut j: usize = 0;
        while j < levels
            invariant
                j <= levels,
                sums@.len() == j,
                forall|x: int| 0 <= x < j ==> sums@[x] == 0,
            decreases levels - j,
        {
            sums.push(0);
            j = j + 1;
        }
        let total: usize = self.entries.len();
        let mut k: usize = 0;
        assert(before.entries.take(0) =~= Seq::empty());
        while k < total
            invariant
                k <= total,
                self.wf(),
                self@ == before,
                total == self.entries@.len(),
                levels == self.levels@.len(),
                sums@.len() == levels,
                forall|x: int|
                    0 <= x < levels ==> #[trigger] sums@[x] == tally(
                        before.entries.take(k as int),
                        before.standing_on_level(self.levels@[x].id@),
                    ),
            decreases total - k,
        {
            let entry = &self.entries[k];
            let ghost row = before.entries[k as int];
            assert(row == self.entries@[k as int].row());
            assert(holds(before.players, row.0.player) && holds(before.levels, row.0.level));
            let found_level = self.level_slot(entry.level_id.as_str());
            let found_player = self.player_slot(entry.player_id.as_str());
            let li: usize = match found_level {
                Some(i) => i,
                None => 0,
            };
            let pi: usize = match found_player {
                Some(i) => i,
                None => 0,
            };
            let share: u128 = self.players[pi].evaluation;
            proof {
                assert(self.player_settled(self.players@[pi as int]));
                assert(before.entries.take(k as int + 1) =~= before.entries.take(k as int).push(
                    row,
                ));
                assert forall|x: int| 0 <= x < levels implies tally(
                    before.entries.take(k as int + 1),
                    before.standing_on_level(self.levels@[x].id@),
                ) == sums@[x] + (if x == li as int {
                    share as nat
                } else {
                    0nat
                }) by {
                    lemma_tally_push(
                        before.entries.take(k as int),
                        row,
                        before.standing_on_level(self.levels@[x].id@),
                    );
                    if x != li as int {
                        assert(before.levels[x].0 != before.levels[li as int].0);
                    }
                }
                lemma_level_bounds(before, self.levels@[li as int].id@, k as int + 1);
                assert(u32::MAX * (k as int + 1) <= u32::MAX * 0x1_0000_0000_0000_0000)
                    by (nonlinear_arith)
                    requires
                        k as int + 1 <= 0x1_0000_0000_0000_0000,
                ;
            }
            let sum: u128 = sums[li] + share;
            sums.set(li, sum);
            k = k + 1;
        }
        assert(before.entries.take(total as int) =~= before.entries);
        let floor_levels: u64 = self.floor_levels;
        let ghost rows = self.levels@;
        let mut j: usize = 0;
        while j < levels
            invariant
                j <= levels,
                levels == rows.len(),
                self.levels@.len() == levels,
                sums@.len() == levels,
                self.players@ == old(self).players@,
                self.entries@ == old(self).entries@,
                self.floor_players == old(self).floor_players,
                self.floor_levels == old(self).floor_levels,
                self.player_index == old(self).player_index,
                self.level_index == old(self).level_index,
                self.entry_index == old(self).entry_index,
                floor_levels == self.floor_levels,
                floor_levels >= 1,
                forall|x: int|
                    0 <= x < levels ==> (#[trigger] self.levels@[x]).id == rows[x].id
                        && self.levels@[x].source_file_id == rows[x].source_file_id
                        && self.levels@[x].display_name == rows[x].display_name
                        && self.levels@[x].entry_count == rows[x].entry_count,
                forall|x: int|
                    0 <= x < j ==> (#[trigger] self.levels@[x]).evaluation_sum == sums@[x]
                        && self.levels@[x].evaluation == sums@[x] as nat / at_least(
                        rows[x].entry_count as nat,
                        floor_levels as nat,
                    ),
            decreases levels - j,
        {
            let sum: u128 = sums[j];
            let row = &mut self.levels[j];
            row.evaluation_sum = sum;
            row.evaluation = sum / divisor(row.entry_count, floor_levels);
            j = j + 1;
        }
        proof {
            lemma_recomputed(before);
            let after = before.recomputed();
            assert(self@.players =~= after.players);
            assert(self@.entries =~= after.entries);
            assert(self@.levels =~= after.levels);
            assert forall|x: int| 0 <= x < self.players@.len() implies self.player_settled(
                #[trigger] self.players@[x],
            ) by {
                assert(old(self).player_settled(old(self).players@[x]));
            }
            assert forall|x: int| 0 <= x < self.levels@.len() implies self.level_settled(
                #[trigger] self.levels@[x],
            ) by {
                assert(old(self).level_settled(old(self).levels@[x]));
            }
            assert(self.player_ids() =~= old(self).player_ids());
            assert(self.level_ids() =~= old(self).level_ids());
            assert(self.entry_keys() =~= old(self).entry_keys());
            self.lemma_keys_kept(old(self));
        }
    }
}

} // verus!
