//! Player against player: on one leaderboard, every player has beaten
//! every player ranked below.  Nothing in the store depends on these
//! pairs; they are derived from a leaderboard on demand.
use crate::ingest::RankedEntry;
use vstd::prelude::*;

verus! {

/// One player ranked above another on a leaderboard.
#[derive(Debug)]
pub struct Duel {
    pub winner_id: String,
    pub loser_id: String,
}

impl View for Duel {
    type V = (Seq<char>, Seq<char>);

    open spec fn view(&self) -> (Seq<char>, Seq<char>) {
        (self.winner_id@, self.loser_id@)
    }
}

/// The pairs in which the player at position `winner` is the winner, in
/// the order of the losers: one for each of the positions after it, up to
/// `losers` of them.
pub open spec fn wins_of(ranked: Seq<RankedEntry>, winner: int, losers: nat) -> Seq<
    (Seq<char>, Seq<char>),
> {
    Seq::new(losers, |k: int| (ranked[winner].player_id@, ranked[winner + 1 + k].player_id@))
}

/// The pairs of the first `winners` players with everyone ranked below
/// them: winner by winner in rank order, and for each winner loser by
/// loser in rank order.
pub open spec fn duels_of(ranked: Seq<RankedEntry>, winners: nat) -> Seq<(Seq<char>, Seq<char>)>
    decreases winners,
{
    if winners == 0 {
        Seq::empty()
    } else {
        duels_of(ranked, (winners - 1) as nat) + wins_of(
            ranked,
            winners - 1,
            (ranked.len() - winners) as nat,
        )
    }
}

/// The pairs of a leaderboard.
pub open spec fn duels(ranked: Seq<RankedEntry>) -> Seq<(Seq<char>, Seq<char>)> {
    duels_of(ranked, ranked.len())
}

/// The text of a list of pairs.
pub open spec fn duels_text(list: Seq<Duel>) -> Seq<(Seq<char>, Seq<char>)> {
    Seq::new(list.len(), |i: int| list[i]@)
}

/// The first `winners` players of a leaderboard of `n` win
/// `winners * (2 n - winners - 1) / 2` pairs between them; all `n` players,
/// `n * (n - 1) / 2`.
pub proof fn lemma_duels_count(ranked: Seq<RankedEntry>, winners: nat)
    requires
        winners <= ranked.len(),
    ensures
        2 * duels_of(ranked, winners).len() == winners * (2 * ranked.len() - winners - 1),
    decreases winners,
{
    let n = ranked.len() as int;
    let w = winners as int;
    if winners == 0 {
        assert(w * (2 * n - w - 1) == 0) by (nonlinear_arith)
            requires
                w == 0,
        ;
    } else {
        lemma_duels_count(ranked, (winners - 1) as nat);
        let before = duels_of(ranked, (winners - 1) as nat).len() as int;
        assert(duels_of(ranked, winners).len() == before + (n - w));
        assert(2 * before == (w - 1) * (2 * n - (w - 1) - 1));
        assert((w - 1) * (2 * n - (w - 1) - 1) + 2 * (n - w) == w * (2 * n - w - 1))
            by (nonlinear_arith);
    }
}

/// Pairs every player of the leaderboard, which comes best first, with
/// every player ranked below.
pub fn player_vs_player(ranked: &Vec<RankedEntry>) -> (pairs: Vec<Duel>)
    ensures
        duels_text(pairs@) == duels(ranked@),
{
    let count: usize = ranked.len();
    let mut pairs: Vec<Duel> = Vec::new();
    let mut winner: usize = 0;
    assert(duels_text(pairs@) =~= duels_of(ranked@, 0));
    while winner < count
        invariant
            winner <= count,
            count == ranked@.len(),
            duels_text(pairs@) == duels_of(ranked@, winner as nat),
        decreases count - winner,
    {
        let ghost before = duels_text(pairs@);
        let mut loser: usize = winner + 1;
        assert(duels_text(pairs@) =~= before + wins_of(ranked@, winner as int, 0));
        while loser < count
            invariant
                winner < loser <= count,
                count == ranked@.len(),
                duels_text(pairs@) == before + wins_of(
                    ranked@,
                    winner as int,
                    (loser - winner - 1) as nat,
                ),
            decreases count - loser,
        {
            let ghost so_far = duels_text(pairs@);
            let ghost won = (loser - winner - 1) as nat;
            let duel = Duel {
                winner_id: ranked[winner].player_id.clone(),
                loser_id: ranked[loser].player_id.clone(),
            };
            pairs.push(duel);
            loser = loser + 1;
            proof {
                assert(duels_text(pairs@) =~= so_far.push(duel@));
                assert(wins_of(ranked@, winner as int, won + 1) =~= wins_of(
                    ranked@,
                    winner as int,
                    won,
                ).push(duel@));
                assert(duels_text(pairs@) =~= before + wins_of(ranked@, winner as int, won + 1));
            }
        }
        winner = winner + 1;
    }
    pairs
}

} // verus!
