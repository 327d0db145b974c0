//! The combinatorial probability accumulator: for an ordered list of
//! independent alive-probabilities and a target count `k`, the probability
//! that exactly `k` of them are alive.
//!
//! A probability is stored exactly as a `u64` numerator over the fixed
//! denominator [`SCALE`]. Products of `n` probabilities are then numerators
//! over `SCALE^n`, and every step of the accumulator is exact integer
//! arithmetic: no rounding happens inside a single accumulation.

use vstd::prelude::*;

verus! {

/// Fixed denominator of every stored probability: a cell value `v` stands
/// for the probability `v / SCALE`, so valid values lie in `0 ..= SCALE`.
pub const SCALE: u64 = 1000;

/// Largest neighbourhood size the accumulator accepts; it keeps every
/// intermediate numerator (at most `SCALE^MAX_NEIGHBOURS`) inside `u128`.
pub const MAX_NEIGHBOURS: usize = 12;

/// `SCALE` to the eighth power: the denominator of a numerator built from
/// the eight neighbours of one cell.
pub const SCALE_POW_8: u128 = 1_000_000_000_000_000_000_000_000;

/// `SCALE^e`, the denominator of a product of `e` cell probabilities.
pub open spec fn pow_scale(e: nat) -> int
    decreases e,
{
    if e == 0 {
        1
    } else {
        (SCALE as int) * pow_scale((e - 1) as nat)
    }
}

/// Every entry is a valid probability numerator, i.e. at most `SCALE`.
pub open spec fn all_le_scale(ps: Seq<u64>) -> bool {
    forall|i: int| 0 <= i < ps.len() ==> ps[i] <= SCALE
}

/// Numerator, over the denominator `SCALE^ps.len()`, of the probability that
/// exactly `k` of the independent events with probabilities `ps` occur: the
/// sum, over every subset of size `k` of the index set, of the product of the
/// chosen probabilities and the complements of the unchosen ones. The
/// recursion splits that sum on whether the first event occurs.
pub open spec fn count_prob(ps: Seq<u64>, k: int) -> int
    decreases ps.len(),
{
    if k < 0 {
        0
    } else if ps.len() == 0 {
        if k == 0 {
            1
        } else {
            0
        }
    } else {
        (ps[0] as int) * count_prob(ps.drop_first(), k - 1) + ((SCALE as int) - (
        ps[0] as int)) * count_prob(ps.drop_first(), k)
    }
}

/// Sum of `count_prob(ps, c)` for every count `c` from `0` through `k`.
pub open spec fn sum_counts(ps: Seq<u64>, k: int) -> int
    decreases (if k < 0 { 0int } else { k + 1 }),
{
    if k < 0 {
        0
    } else {
        count_prob(ps, k) + sum_counts(ps, k - 1)
    }
}

pub proof fn lemma_pow_scale_pos(e: nat)
    ensures
        pow_scale(e) >= 1,
    decreases e,
{
    if e > 0 {
        lemma_pow_scale_pos((e - 1) as nat);
    }
}

pub proof fn lemma_pow_scale_increases(e1: nat, e2: nat)
    requires
        e1 <= e2,
    ensures
        pow_scale(e1) <= pow_scale(e2),
    decreases e2,
{
    if e1 < e2 {
        lemma_pow_scale_increases(e1, (e2 - 1) as nat);
        lemma_pow_scale_pos((e2 - 1) as nat);
    }
}

/// The accumulator is non-negative and never exceeds its own denominator:
/// it is a probability.
pub proof fn lemma_count_prob_bounds(ps: Seq<u64>, k: int)
    requires
        all_le_scale(ps),
    ensures
        0 <= count_prob(ps, k) <= pow_scale(ps.len()),
    decreases ps.len(),
{
    if k < 0 || ps.len() == 0 {
        lemma_pow_scale_pos(ps.len());
    } else {
        let rest = ps.drop_first();
        assert(all_le_scale(rest)) by {
            assert(forall|i: int| 0 <= i < rest.len() ==> rest[i] == ps[i + 1]);
        }
        lemma_count_prob_bounds(rest, k - 1);
        lemma_count_prob_bounds(rest, k);
        let s = SCALE as int;
        let p = ps[0] as int;
        let a = count_prob(rest, k - 1);
        let b = count_prob(rest, k);
        let m = pow_scale(rest.len());
        assert(0 <= p * a + (s - p) * b <= s * m) by (nonlinear_arith)
            requires
                0 <= a <= m,
                0 <= b <= m,
                0 <= p <= s,
        ;
        assert(pow_scale(ps.len()) == s * m);
    }
}

/// A count larger than the number of events is unreachable: its probability
/// is exactly zero.
pub proof fn lemma_count_prob_zero_above(ps: Seq<u64>, k: int)
    requires
        k > ps.len(),
    ensures
        count_prob(ps, k) == 0,
    decreases ps.len(),
{
    if ps.len() > 0 {
        lemma_count_prob_zero_above(ps.drop_first(), k - 1);
        lemma_count_prob_zero_above(ps.drop_first(), k);
    }
}

proof fn lemma_sum_counts_split(ps: Seq<u64>, k: int)
    requires
        ps.len() > 0,
    ensures
        sum_counts(ps, k) == (ps[0] as int) * sum_counts(ps.drop_first(), k - 1) + ((
        SCALE as int) - (ps[0] as int)) * sum_counts(ps.drop_first(), k),
    decreases k,
{
    let rest = ps.drop_first();
    let s = SCALE as int;
    let p = ps[0] as int;
    if k < 0 {
        assert(p * sum_counts(rest, k - 1) == 0);
        assert((s - p) * sum_counts(rest, k) == 0);
    } else if k == 0 {
        assert(sum_counts(ps, -1) == 0);
        assert(sum_counts(rest, -1) == 0);
        assert(sum_counts(ps, 0) == count_prob(ps, 0));
        assert(count_prob(rest, -1) == 0);
        assert(count_prob(ps, 0) == p * count_prob(rest, -1) + (s - p) * count_prob(rest, 0));
        assert(p * sum_counts(rest, -1) == 0);
        assert(sum_counts(rest, 0) == count_prob(rest, 0));
    } else {
        lemma_sum_counts_split(ps, k - 1);
        let x1 = count_prob(rest, k - 1);
        let x2 = sum_counts(rest, k - 2);
        let y1 = count_prob(rest, k);
        let y2 = sum_counts(rest, k - 1);
        assert(sum_counts(rest, k - 1) == x1 + x2);
        assert(sum_counts(rest, k) == y1 + y2);
        assert(p * (x1 + x2) + (s - p) * (y1 + y2) == (p * x1 + (s - p) * y1) + (p * x2 + (s - p)
            * y2)) by (nonlinear_arith);
        assert(sum_counts(ps, k) == count_prob(ps, k) + sum_counts(ps, k - 1));
        assert(count_prob(ps, k) == p * x1 + (s - p) * y1);
        assert(sum_counts(ps, k - 1) == p * x2 + (s - p) * y2);
    }
}

/// Law: the probabilities of all achievable counts partition the outcome
/// space. Summed over every count from `0` through `ps.len()`, the
/// accumulator yields exactly `SCALE^ps.len()` — that is, probability one —
/// for any probability vector `ps`.
pub proof fn lemma_accumulator_total(ps: Seq<u64>)
    ensures
        sum_counts(ps, ps.len() as int) == pow_scale(ps.len()),
    decreases ps.len(),
{
    if ps.len() == 0 {
        assert(sum_counts(ps, 0) == count_prob(ps, 0) + sum_counts(ps, -1));
    } else {
        let rest = ps.drop_first();
        let n = ps.len() as int;
        let s = SCALE as int;
        let p = ps[0] as int;
        lemma_accumulator_total(rest);
        lemma_sum_counts_split(ps, n);
        lemma_count_prob_zero_above(rest, n);
        let m = pow_scale(rest.len());
        assert(sum_counts(rest, n) == count_prob(rest, n) + sum_counts(rest, n - 1));
        assert(sum_counts(rest, n - 1) == m);
        assert(p * m + (s - p) * m == s * m) by (nonlinear_arith);
        assert(pow_scale(ps.len()) == s * m);
    }
}

/// Every entry is exactly zero or one: a deterministic configuration.
pub open spec fn is_binary(ps: Seq<u64>) -> bool {
    forall|i: int| 0 <= i < ps.len() ==> (ps[i] == 0 || ps[i] == SCALE)
}

/// How many of the entries are certainly alive (equal to `SCALE`).
pub open spec fn alive_count(ps: Seq<u64>) -> int
    decreases ps.len(),
{
    if ps.len() == 0 {
        0
    } else {
        (if ps[0] == SCALE {
            1int
        } else {
            0int
        }) + alive_count(ps.drop_first())
    }
}

pub proof fn lemma_alive_count_bounds(ps: Seq<u64>)
    ensures
        0 <= alive_count(ps) <= ps.len(),
    decreases ps.len(),
{
    if ps.len() > 0 {
        lemma_alive_count_bounds(ps.drop_first());
    }
}

/// Law: on a binary (deterministic) input the accumulator degenerates to the
/// classic neighbour count — probability one at the actual number of alive
/// entries, zero at every other count.
pub proof fn lemma_binary_count_prob(ps: Seq<u64>, k: int)
    requires
        is_binary(ps),
    ensures
        count_prob(ps, k) == if k == alive_count(ps) {
            pow_scale(ps.len())
        } else {
            0
        },
    decreases ps.len(),
{
    lemma_alive_count_bounds(ps);
    if k < 0 || ps.len() == 0 {
    } else {
        let rest = ps.drop_first();
        assert(is_binary(rest)) by {
            assert(forall|i: int| 0 <= i < rest.len() ==> rest[i] == ps[i + 1]);
        }
        lemma_binary_count_prob(rest, k - 1);
        lemma_binary_count_prob(rest, k);
        let s = SCALE as int;
        assert(s == 1000);
        assert(pow_scale(ps.len()) == s * pow_scale(rest.len()));
        assert(count_prob(ps, k) == (ps[0] as int) * count_prob(rest, k - 1) + (s - (
        ps[0] as int)) * count_prob(rest, k));
        let p = ps[0] as int;
        let c1 = count_prob(rest, k - 1);
        let c2 = count_prob(rest, k);
        if ps[0] == SCALE {
            assert(p == s);
            assert(p * c1 == s * c1 && (s - p) * c2 == 0) by (nonlinear_arith)
                requires
                    p == s,
            ;
            assert(count_prob(ps, k) == s * count_prob(rest, k - 1));
            assert(alive_count(ps) == 1 + alive_count(rest));
        } else {
            assert(p == 0);
            assert(p * c1 == 0 && (s - p) * c2 == s * c2) by (nonlinear_arith)
                requires
                    p == 0,
            ;
            assert(count_prob(ps, k) == s * count_prob(rest, k));
            assert(alive_count(ps) == alive_count(rest));
        }
    }
}

/// Numerator, over `SCALE^(neighbours.len() - start)`, of the probability
/// that exactly `k` of the entries from `start` on are alive. The recursion
/// enumerates, in effect, every assignment of alive/dead to those entries.
pub(crate) fn count_exactly_alive(neighbours: &Vec<u64>, start: usize, k: usize) -> (r: u128)
    requires
        all_le_scale(neighbours@),
        neighbours@.len() <= MAX_NEIGHBOURS,
        start <= neighbours@.len(),
    ensures
        r as int == count_prob(neighbours@.skip(start as int), k as int),
        r as int <= pow_scale((neighbours@.len() - start) as nat),
    decreases neighbours@.len() - start,
{
    let ghost tail = neighbours@.skip(start as int);
    if start == neighbours.len() {
        proof {
            assert(tail =~= Seq::<u64>::empty());
            lemma_pow_scale_pos((neighbours@.len() - start) as nat);
        }
        if k == 0 {
            1
        } else {
            0
        }
    } else {
        let p = neighbours[start];
        let with_alive: u128 = if k > 0 {
            count_exactly_alive(neighbours, start + 1, k - 1)
        } else {
            0
        };
        let with_dead: u128 = count_exactly_alive(neighbours, start + 1, k);
        proof {
            assert(tail.drop_first() =~= neighbours@.skip(start as int + 1));
            assert(tail[0] == neighbours@[start as int]);
            assert(count_prob(tail, k as int) == (tail[0] as int) * count_prob(
                tail.drop_first(),
                k as int - 1,
            ) + ((SCALE as int) - (tail[0] as int)) * count_prob(tail.drop_first(), k as int));
            if k == 0 {
                assert(count_prob(neighbours@.skip(start as int + 1), k as int - 1) == 0);
            }
            assert(with_alive as int == count_prob(neighbours@.skip(start as int + 1), k as int - 1));
            assert(with_dead as int == count_prob(neighbours@.skip(start as int + 1), k as int));
            let s = SCALE as int;
            let m = pow_scale((neighbours@.len() - start - 1) as nat);
            lemma_pow_scale_pos((neighbours@.len() - start - 1) as nat);
            assert(with_alive as int <= m);
            assert(0 <= (p as int) * (with_alive as int) <= s * m && 0 <= (s - (p as int)) * (
            with_dead as int) <= s * m && (p as int) * (with_alive as int) + (s - (p as int)) * (
            with_dead as int) <= s * m) by (nonlinear_arith)
                requires
                    0 <= with_alive as int <= m,
                    0 <= with_dead as int <= m,
                    0 <= p as int <= s,
            ;
            assert(s * m == pow_scale((neighbours@.len() - start) as nat));
            lemma_pow_scale_increases((neighbours@.len() - start) as nat, 12);
            assert(pow_scale(12) == 1000000000000000000000000000000000000) by {
                reveal_with_fuel(pow_scale, 13);
            }
        }
        (p as u128) * with_alive + ((SCALE - p) as u128) * with_dead
    }
}

} // verus!
