//! The award for one leaderboard entry: a point value that decays
//! exponentially with the entry's rank and is capped by the board's size.
//!
//! With `base = MAX_AWARD * min(total, FULL_BOARD) / FULL_BOARD`, the award
//! for `rank` is the integer part of `base * 3^(-(rank - 1) / 25)`.  The
//! 25th root of three is irrational, so the award is computed, and defined,
//! without it: `e` is the award when
//! `e^25 * 3^(rank - 1) <= base^25 < (e + 1)^25 * 3^(rank - 1)`.
use crate::natural::Natural;
use vstd::arithmetic::power::*;
use vstd::prelude::*;

verus! {

/// The award for first place on a full board.
pub const MAX_AWARD: u32 = 1000;

/// The number of entries from which a board counts as full.
pub const FULL_BOARD: u32 = 20;

/// The factor by which the award shrinks over `DECAY_SPAN` ranks.
pub const DECAY_FACTOR: u32 = 3;

/// The number of ranks over which the award shrinks by `DECAY_FACTOR`.
pub const DECAY_SPAN: u32 = 25;

/// The award for first place on a board of `total` entries.
pub open spec fn base_award(total: nat) -> nat {
    let counted = if total < FULL_BOARD {
        total
    } else {
        FULL_BOARD as nat
    };
    MAX_AWARD as nat * counted / (FULL_BOARD as nat)
}

/// `3^(rank - 1)`: the 25th power of the decay that `rank` has suffered.
pub open spec fn decay(rank: nat) -> int {
    pow(DECAY_FACTOR as int, (rank - 1) as nat)
}

/// Whether `e` is the integer part of
/// `base_award(total) * 3^(-(rank - 1) / 25)`.
pub open spec fn is_award(e: nat, rank: nat, total: nat) -> bool {
    &&& rank >= 1
    &&& pow(e as int, DECAY_SPAN as nat) * decay(rank) <= pow(
        base_award(total) as int,
        DECAY_SPAN as nat,
    )
    &&& pow(base_award(total) as int, DECAY_SPAN as nat) < pow((e + 1) as int, DECAY_SPAN as nat) * decay(
        rank,
    )
}

/// The award for `rank` on a board of `total` entries.
pub open spec fn award(rank: nat, total: nat) -> nat {
    choose|e: nat| is_award(e, rank, total)
}

proof fn lemma_pow_next(b: int, e: nat)
    ensures
        pow(b, e + 1) == pow(b, e) * b,
{
    reveal(pow);
    assert(pow(b, e + 1) == b * pow(b, e));
    assert(b * pow(b, e) == pow(b, e) * b) by (nonlinear_arith);
}

/// Powers grow with their base.
pub proof fn lemma_pow_grows_with_base(a: nat, b: nat, e: nat)
    requires
        a <= b,
    ensures
        0 <= pow(a as int, e) <= pow(b as int, e),
    decreases e,
{
    reveal(pow);
    if e > 0 {
        lemma_pow_grows_with_base(a, b, (e - 1) as nat);
        let x = pow(a as int, (e - 1) as nat);
        let y = pow(b as int, (e - 1) as nat);
        assert(0 <= a * x <= b * y) by (nonlinear_arith)
            requires
                0 <= x <= y,
                0 <= a <= b,
        ;
    }
}

/// Positive powers grow strictly with their base.
pub proof fn lemma_pow_grows_strictly_with_base(a: nat, b: nat, e: nat)
    requires
        a < b,
        e > 0,
    ensures
        pow(a as int, e) < pow(b as int, e),
{
    reveal(pow);
    lemma_pow_grows_with_base(a, b, (e - 1) as nat);
    lemma_pow_positive(b as int, (e - 1) as nat);
    let x = pow(a as int, (e - 1) as nat);
    let y = pow(b as int, (e - 1) as nat);
    assert(a * x < b * y) by (nonlinear_arith)
        requires
            0 <= x <= y,
            0 < y,
            0 <= a < b,
    ;
}

/// The decay is positive and never shrinks as the rank grows.
pub proof fn lemma_decay_grows(rank: nat, later: nat)
    requires
        1 <= rank <= later,
    ensures
        0 < decay(rank) <= decay(later),
{
    lemma_pow_positive(DECAY_FACTOR as int, (rank - 1) as nat);
    lemma_pow_increases(DECAY_FACTOR as nat, (rank - 1) as nat, (later - 1) as nat);
}

/// At most one number is the award for a rank and a board size.
pub proof fn lemma_award_is_unique(e1: nat, e2: nat, rank: nat, total: nat)
    requires
        is_award(e1, rank, total),
        is_award(e2, rank, total),
    ensures
        e1 == e2,
{
    lemma_decay_grows(rank, rank);
    let d = decay(rank);
    if e1 < e2 {
        lemma_pow_grows_with_base(e1 + 1, e2, DECAY_SPAN as nat);
        let x = pow((e1 + 1) as int, DECAY_SPAN as nat);
        let y = pow(e2 as int, DECAY_SPAN as nat);
        assert(x * d <= y * d) by (nonlinear_arith)
            requires
                x <= y,
                0 < d,
        ;
    } else if e2 < e1 {
        lemma_pow_grows_with_base(e2 + 1, e1, DECAY_SPAN as nat);
        let x = pow((e2 + 1) as int, DECAY_SPAN as nat);
        let y = pow(e1 as int, DECAY_SPAN as nat);
        assert(x * d <= y * d) by (nonlinear_arith)
            requires
                x <= y,
                0 < d,
        ;
    }
}

/// Whatever meets `is_award` is the award.
pub proof fn lemma_award_found(e: nat, rank: nat, total: nat)
    requires
        is_award(e, rank, total),
    ensures
        award(rank, total) == e,
{
    lemma_award_is_unique(e, award(rank, total), rank, total);
}

proof fn lemma_award_below(e: nat, rank: nat, total: nat)
    requires
        rank >= 1,
        pow(base_award(total) as int, DECAY_SPAN as nat) < pow((e + 1) as int, DECAY_SPAN as nat)
            * decay(rank),
    ensures
        exists|found: nat| found <= e && is_award(found, rank, total),
    decreases e,
{
    let goal = pow(base_award(total) as int, DECAY_SPAN as nat);
    if pow(e as int, DECAY_SPAN as nat) * decay(rank) <= goal {
        assert(is_award(e, rank, total));
    } else {
        if e == 0 {
            reveal(pow);
            assert(pow(0, DECAY_SPAN as nat) == 0);
            assert(0 * decay(rank) == 0);
            lemma_pow_grows_with_base(0, base_award(total), DECAY_SPAN as nat);
        } else {
            lemma_award_below((e - 1) as nat, rank, total);
        }
    }
}

/// Every rank from 1 on has an award, on a board of any size, and the award
/// is at most the board's base award.
pub proof fn lemma_award_exists(rank: nat, total: nat)
    requires
        rank >= 1,
    ensures
        is_award(award(rank, total), rank, total),
        award(rank, total) <= base_award(total) <= MAX_AWARD,
{
    let base = base_award(total);
    let d = decay(rank);
    lemma_decay_grows(rank, rank);
    lemma_pow_grows_strictly_with_base(base, base + 1, DECAY_SPAN as nat);
    let x = pow((base + 1) as int, DECAY_SPAN as nat);
    lemma_pow_positive(base as int + 1, DECAY_SPAN as nat);
    assert(x * 1 <= x * d) by (nonlinear_arith)
        requires
            0 < x,
            1 <= d,
    ;
    lemma_award_below(base, rank, total);
    let found = choose|found: nat| found <= base && is_award(found, rank, total);
    lemma_award_found(found, rank, total);
}

/// First place earns the board's base award.
pub proof fn lemma_first_rank_earns_base(total: nat)
    ensures
        award(1, total) == base_award(total),
{
    let base = base_award(total);
    lemma_pow0(DECAY_FACTOR as int);
    lemma_pow_grows_strictly_with_base(base, base + 1, DECAY_SPAN as nat);
    assert(pow(base as int, DECAY_SPAN as nat) * 1 == pow(base as int, DECAY_SPAN as nat));
    assert(pow((base + 1) as int, DECAY_SPAN as nat) * 1 == pow(
        (base + 1) as int,
        DECAY_SPAN as nat,
    ));
    lemma_award_found(base, 1, total);
}

/// On one board, a later rank never earns more than an earlier one.
pub proof fn lemma_award_falls_with_rank(rank: nat, later: nat, total: nat)
    requires
        1 <= rank <= later,
    ensures
        award(later, total) <= award(rank, total),
{
    lemma_award_exists(rank, total);
    lemma_award_exists(later, total);
    lemma_decay_grows(rank, later);
    let e1 = award(rank, total);
    let e2 = award(later, total);
    if e1 < e2 {
        lemma_pow_grows_with_base(e1 + 1, e2, DECAY_SPAN as nat);
        let x = pow((e1 + 1) as int, DECAY_SPAN as nat);
        let y = pow(e2 as int, DECAY_SPAN as nat);
        let d1 = decay(rank);
        let d2 = decay(later);
        assert(x * d1 <= y * d2) by (nonlinear_arith)
            requires
                0 <= x <= y,
                0 < d1 <= d2,
        ;
    }
}

/// `DECAY_SPAN` ranks further down, the award is a third, rounded down.
pub proof fn lemma_award_thirds_over_span(rank: nat, total: nat)
    requires
        rank >= 1,
    ensures
        award(rank + DECAY_SPAN as nat, total) == award(rank, total) / (DECAY_FACTOR as nat),
{
    lemma_award_exists(rank, total);
    let e = award(rank, total);
    let f = e / 3;
    let span = DECAY_SPAN as nat;
    let d = decay(rank);
    let goal = pow(base_award(total) as int, span);
    lemma_decay_grows(rank, rank);
    // 3^(rank - 1 + 25) == 3^(rank - 1) * 3^25
    lemma_pow_adds(3, (rank - 1) as nat, span);
    assert(decay(rank + span) == d * pow(3, span));
    // (3 f)^25 == 3^25 * f^25, and the same for f + 1
    lemma_pow_distributes(3, f as int, span);
    lemma_pow_distributes(3, (f + 1) as int, span);
    lemma_pow_grows_with_base(3 * f, e, span);
    lemma_pow_grows_with_base(e + 1, 3 * (f + 1), span);
    let t = pow(3, span);
    let pf = pow(f as int, span);
    let pg = pow((f + 1) as int, span);
    let lo = pow((3 * f) as int, span);
    let hi = pow((3 * (f + 1)) as int, span);
    let pe = pow(e as int, span);
    let pe1 = pow((e + 1) as int, span);
    assert(pf * (d * t) <= goal) by (nonlinear_arith)
        requires
            lo == t * pf,
            0 <= lo <= pe,
            pe * d <= goal,
            0 < d,
    ;
    assert(goal < pg * (d * t)) by (nonlinear_arith)
        requires
            hi == t * pg,
            0 <= pe1 <= hi,
            goal < pe1 * d,
            0 < d,
    ;
    assert((rank + span - 1) as nat == (rank - 1) as nat + span);
    lemma_award_found(f, rank + span, total);
}

/// The first rank that earns nothing on any board.
pub const FIRST_EMPTY_RANK: u64 = 159;

/// From `FIRST_EMPTY_RANK` on, the award is zero.
pub proof fn lemma_award_vanishes(rank: nat, total: nat)
    requires
        rank >= FIRST_EMPTY_RANK,
    ensures
        award(rank, total) == 0,
{
    let span = DECAY_SPAN as nat;
    let base = base_award(total);
    // 3^158 > 10^75 == 1000^25, in steps that stay small.
    assert(pow(3, 21) == 10460353203 && pow(10, 10) == 10000000000) by {
        reveal_with_fuel(pow, 22);
    }
    assert(pow(3, 11) == 177147 && pow(10, 5) == 100000 && pow(10, 3) == 1000) by {
        reveal_with_fuel(pow, 12);
    }
    lemma_pow_grows_with_base(pow(10, 10) as nat, pow(3, 21) as nat, 7);
    lemma_pow_multiplies(3, 21, 7);
    lemma_pow_multiplies(10, 10, 7);
    lemma_pow_adds(3, 147, 11);
    lemma_pow_adds(10, 70, 5);
    lemma_pow_multiplies(10, 3, 25);
    lemma_pow_positive(10, 70);
    let a = pow(3, 147);
    let b = pow(10, 70);
    assert(a * 177147 > b * 100000) by (nonlinear_arith)
        requires
            a >= b,
            b > 0,
    ;
    assert(pow(3, 158) > pow(1000, span));
    lemma_pow_increases(3, 158, (rank - 1) as nat);
    lemma_pow_grows_with_base(base, 1000, span);
    assert(pow(0, span) == 0 && pow(1, span) == 1) by {
        reveal(pow);
        lemma1_pow(span);
    }
    assert(0 * decay(rank) == 0);
    assert(1 * decay(rank) == decay(rank));
    lemma_pow_grows_with_base(0, base, span);
    lemma_award_found(0, rank, total);
}

/// Boards short of `FULL_BOARD` entries earn in proportion to their size;
/// fuller ones earn `MAX_AWARD`.
pub proof fn lemma_base_award_scales(total: nat)
    ensures
        total <= FULL_BOARD ==> base_award(total) * FULL_BOARD == MAX_AWARD * total,
        total >= FULL_BOARD ==> base_award(total) == MAX_AWARD,
{
}

/// `start * factor^count`.
fn raised(start: &Natural, factor: u32, count: u32) -> (r: Natural)
    ensures
        r@ == start@ * pow(factor as int, count as nat),
{
    let mut r: Natural = start.times(1);
    let mut i: u32 = 0;
    proof {
        lemma_pow0(factor as int);
    }
    while i < count
        invariant
            i <= count,
            r@ == start@ * pow(factor as int, i as nat),
        decreases count - i,
    {
        proof {
            lemma_pow_next(factor as int, i as nat);
            let p = pow(factor as int, i as nat);
            assert((start@ * p) * factor == start@ * (p * factor)) by (nonlinear_arith);
        }
        r = r.times(factor);
        i = i + 1;
    }
    r
}

/// The award for `rank` (1 is best) on a board of `total` entries.
pub fn evaluate(rank: u64, total: u64) -> (e: u32)
    requires
        rank >= 1,
    ensures
        is_award(e as nat, rank as nat, total as nat),
        e == award(rank as nat, total as nat),
        e <= base_award(total as nat) <= MAX_AWARD,
{
    let counted: u32 = if total < FULL_BOARD as u64 {
        total as u32
    } else {
        FULL_BOARD
    };
    let base: u32 = MAX_AWARD * counted / FULL_BOARD;
    assert(base == base_award(total as nat));
    let steps: u64 = rank - 1;
    let one: Natural = Natural::from_u32(1);
    let goal: Natural = raised(&one, base, DECAY_SPAN);
    let ghost goal_pow = pow(base as int, DECAY_SPAN as nat);
    assert(goal@ == goal_pow) by {
        assert(1 * goal_pow == goal_pow);
    }

    // The decay, as far as it can matter: once it exceeds the goal the
    // award is zero whatever the rank.
    let mut scale: Natural = Natural::from_u32(1);
    let mut done: u64 = 0;
    let mut within: bool = scale.at_most(&goal);
    proof {
        lemma_pow0(DECAY_FACTOR as int);
    }
    while done < steps && within
        invariant
            done <= steps,
            scale@ == pow(DECAY_FACTOR as int, done as nat),
            within == (scale@ <= goal@),
        decreases steps - done,
    {
        proof {
            lemma_pow_next(DECAY_FACTOR as int, done as nat);
        }
        scale = scale.times(DECAY_FACTOR);
        done = done + 1;
        within = scale.at_most(&goal);
    }
    proof {
        reveal(pow);
        assert(pow(0, DECAY_SPAN as nat) == 0);
        assert(pow(1, DECAY_SPAN as nat) == 1) by {
            lemma1_pow(DECAY_SPAN as nat);
        }
    }
    if !within {
        proof {
            lemma_pow_increases(DECAY_FACTOR as nat, done as nat, steps as nat);
            assert(0 * decay(rank as nat) == 0);
            assert(1 * decay(rank as nat) == decay(rank as nat));
            lemma_award_found(0, rank as nat, total as nat);
        }
        return 0;
    }
    assert(scale@ == decay(rank as nat));
    let ghost d = decay(rank as nat);

    let mut low: u32 = 0;
    let mut high: u32 = base + 1;
    proof {
        lemma_pow_grows_strictly_with_base(base as nat, (base + 1) as nat, DECAY_SPAN as nat);
        let x = pow(base + 1, DECAY_SPAN as nat);
        lemma_decay_grows(rank as nat, rank as nat);
        assert(0 * d == 0);
        lemma_pow_positive(base as int + 1, DECAY_SPAN as nat);
        assert(x * 1 <= x * d) by (nonlinear_arith)
            requires
                0 < x,
                1 <= d,
        ;
    }
    while high - low > 1
        invariant
            low < high <= base + 1,
            base <= MAX_AWARD,
            scale@ == d,
            goal@ == goal_pow,
            pow(low as int, DECAY_SPAN as nat) * d <= goal_pow,
            goal_pow < pow(high as int, DECAY_SPAN as nat) * d,
        decreases high - low,
    {
        let mid: u32 = low + (high - low) / 2;
        let trial: Natural = raised(&scale, mid, DECAY_SPAN);
        proof {
            let p = pow(mid as int, DECAY_SPAN as nat);
            assert(d * p == p * d) by (nonlinear_arith);
        }
        if trial.at_most(&goal) {
            low = mid;
        } else {
            high = mid;
        }
    }
    proof {
        lemma_award_found(low as nat, rank as nat, total as nat);
    }
    low
}

} // verus!
