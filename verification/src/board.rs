//! The board: a rectangular toroidal grid of per-cell alive probabilities
//! together with the active rule set, stepped one generation at a time.
//!
//! Every probability is an exact `u64` numerator over [`SCALE`]. One
//! generation computes, for every cell, the exact `SCALE^9` numerator of the
//! next alive probability from the eight toroidal neighbours, then brings it
//! back to denominator `SCALE` by floor division (clamped to `SCALE`): the
//! one rounding step of the whole transition.

use vstd::arithmetic::div_mod::{
    lemma_div_by_multiple, lemma_div_of0, lemma_div_pos_is_pos, lemma_fundamental_div_mod,
    lemma_fundamental_div_mod_converse_mod, lemma_mod_division_less_than_divisor,
    lemma_mod_multiples_basic,
};
use vstd::prelude::*;

use crate::probability::{
    all_le_scale, alive_count, count_exactly_alive, count_prob, is_binary,
    lemma_binary_count_prob, lemma_count_prob_bounds, lemma_pow_scale_pos, pow_scale,
    MAX_NEIGHBOURS, SCALE, SCALE_POW_8,
};

verus! {

/// Longest rule list `change_rules` accepts; it keeps every rule-probability
/// sum inside `u128`.
pub const MAX_RULES: usize = 1000;

/// Largest grid side length: cell coordinates travel as `i32`, so a side
/// must fit in one.
pub const MAX_SIDE: usize = 0x7fff_ffff;

/// A construction error: the supplied rows do not form a rectangle.
#[derive(Clone, Copy, PartialEq, Eq, Structural, Debug)]
pub enum LifeError {
    /// Rows of unequal length were supplied.
    JaggedInput,
    /// Zero rows were supplied, leaving the width undefined.
    EmptyInput,
}

/// The grids as mathematical sequences: one row sequence per row vector.
pub open spec fn grid_view(t: Seq<Vec<u64>>) -> Seq<Seq<u64>> {
    Seq::new(t.len(), |i: int| t[i]@)
}

/// All rows have the length of the first one.
pub open spec fn rectangular(g: Seq<Seq<u64>>) -> bool {
    forall|i: int| 0 <= i < g.len() ==> (#[trigger] g[i]).len() == g[0].len()
}

/// Every cell holds a valid probability numerator.
pub open spec fn cells_le_scale(g: Seq<Seq<u64>>) -> bool {
    forall|i: int| 0 <= i < g.len() ==> all_le_scale(#[trigger] g[i])
}

/// A well-formed grid: non-empty, rectangular, sides that fit in an `i32`,
/// and valid probabilities throughout.
pub open spec fn grid_wf(g: Seq<Seq<u64>>) -> bool {
    &&& g.len() > 0
    &&& g.len() <= MAX_SIDE
    &&& g[0].len() <= MAX_SIDE
    &&& rectangular(g)
    &&& cells_le_scale(g)
}

/// The eight toroidal neighbours of cell `(i, j)`: the 3x3 block centred on
/// the cell minus the centre, in row-major order. Indices wrap with floored
/// modulo, so coordinate `-1` names the last row or column.
pub open spec fn neighbour_probs(g: Seq<Seq<u64>>, i: int, j: int) -> Seq<u64> {
    let h = g.len() as int;
    let w = g[0].len() as int;
    seq![
        g[(i - 1) % h][(j - 1) % w],
        g[(i - 1) % h][j % w],
        g[(i - 1) % h][(j + 1) % w],
        g[i % h][(j - 1) % w],
        g[i % h][(j + 1) % w],
        g[(i + 1) % h][(j - 1) % w],
        g[(i + 1) % h][j % w],
        g[(i + 1) % h][(j + 1) % w],
    ]
}

/// Numerator, over `SCALE^(ns.len())`, of the probability that the number of
/// alive neighbours is one of `rules`, summed over the list in order (a
/// repeated count contributes twice).
pub open spec fn rules_prob(ns: Seq<u64>, rules: Seq<usize>) -> int
    decreases rules.len(),
{
    if rules.len() == 0 {
        0
    } else {
        count_prob(ns, rules[0] as int) + rules_prob(ns, rules.drop_first())
    }
}

/// Exact `SCALE^9` numerator of the next-generation alive probability of the
/// cell at `(i, j)` (coordinates wrap): alive-now times the survival
/// probability plus dead-now times the birth probability.
pub open spec fn next_cell_num(
    g: Seq<Seq<u64>>,
    survivals: Seq<usize>,
    births: Seq<usize>,
    i: int,
    j: int,
) -> int {
    let h = g.len() as int;
    let w = g[0].len() as int;
    let ns = neighbour_probs(g, i, j);
    let alive = g[i % h][j % w] as int;
    alive * rules_prob(ns, survivals) + ((SCALE as int) - alive) * rules_prob(ns, births)
}

/// The stored next-generation value of the cell at `(i, j)`: its `SCALE^9`
/// numerator brought back to denominator `SCALE` by floor division, clamped
/// to `SCALE`. (The clamp only matters when a rule list repeats a count, so
/// that the rule probabilities sum above one.)
pub open spec fn next_cell_value(
    g: Seq<Seq<u64>>,
    survivals: Seq<usize>,
    births: Seq<usize>,
    i: int,
    j: int,
) -> int {
    let q = next_cell_num(g, survivals, births, i, j) / pow_scale(8);
    if q > SCALE {
        SCALE as int
    } else {
        q
    }
}

/// The whole next generation of grid `g` under the given rules.
pub open spec fn next_grid(g: Seq<Seq<u64>>, survivals: Seq<usize>, births: Seq<usize>) -> Seq<
    Seq<u64>,
> {
    Seq::new(
        g.len(),
        |i: int| Seq::new(g[0].len(), |j: int| next_cell_value(g, survivals, births, i, j) as u64),
    )
}

/// A rectangular toroidal grid of alive probabilities, the active survival
/// and birth rules, and the history of every generation so far (the initial
/// grid included).
pub struct Board {
    probabilities: Vec<Vec<u64>>,
    survivals: Vec<usize>,
    births: Vec<usize>,
    history: Vec<Vec<Vec<u64>>>,
}

impl Board {
    /// The current grid.
    pub closed spec fn grid(&self) -> Seq<Seq<u64>> {
        grid_view(self.probabilities@)
    }

    /// The neighbour counts that keep an alive cell alive.
    pub closed spec fn survival_rules(&self) -> Seq<usize> {
        self.survivals@
    }

    /// The neighbour counts that bring a dead cell to life.
    pub closed spec fn birth_rules(&self) -> Seq<usize> {
        self.births@
    }

    /// Every generation so far, oldest first, the initial grid included.
    pub closed spec fn past(&self) -> Seq<Seq<Seq<u64>>> {
        Seq::new(self.history@.len(), |t: int| grid_view(self.history@[t]@))
    }

    /// A valid board: well-formed grid, rule lists within bounds.
    pub open spec fn wf(&self) -> bool {
        &&& grid_wf(self.grid())
        &&& self.survival_rules().len() <= MAX_RULES
        &&& self.birth_rules().len() <= MAX_RULES
    }

    /// Builds a board from the initial grid, with the standard Game-of-Life
    /// rules (survivals 2 and 3, births 3) and the grid as the first history
    /// entry. Rejects empty input (no rows, so the width is undefined) and
    /// jagged input (rows of unequal length).
    pub fn new(probabilities: Vec<Vec<u64>>) -> (result: Result<Board, LifeError>)
        requires
            probabilities@.len() <= MAX_SIDE,
            forall|i: int|
                0 <= i < probabilities@.len() ==> (#[trigger] probabilities@[i])@.len()
                    <= MAX_SIDE,
            cells_le_scale(grid_view(probabilities@)),
        ensures
            result is Ok <==> (probabilities@.len() > 0 && rectangular(grid_view(probabilities@))),
            (match result {
                Ok(board) => {
                    &&& board.wf()
                    &&& board.grid() == grid_view(probabilities@)
                    &&& board.survival_rules() == seq![2usize, 3usize]
                    &&& board.birth_rules() == seq![3usize]
                    &&& board.past() == seq![board.grid()]
                },
                Err(e) => {
                    &&& (e == LifeError::EmptyInput <==> probabilities@.len() == 0)
                    &&& (e == LifeError::JaggedInput <==> (probabilities@.len() > 0
                        && !rectangular(grid_view(probabilities@))))
                },
            }),
    {
        let ghost g0 = probabilities@;
        if probabilities.len() == 0 {
            return Err(LifeError::EmptyInput);
        }
        let width = probabilities[0].len();
        let mut idx: usize = 1;
        while idx < probabilities.len()
            invariant
                1 <= idx <= g0.len(),
                g0.len() > 0,
                probabilities@ == g0,
                width == g0[0]@.len(),
                forall|t: int| 0 <= t < idx ==> (#[trigger] g0[t])@.len() == width,
            decreases g0.len() - idx,
        {
            if probabilities[idx].len() != width {
                proof {
                    assert(grid_view(g0)[idx as int].len() != grid_view(g0)[0].len());
                }
                return Err(LifeError::JaggedInput);
            }
            idx += 1;
        }
        proof {
            assert(rectangular(grid_view(g0))) by {
                assert(forall|t: int|
                    0 <= t < g0.len() ==> (#[trigger] grid_view(g0)[t]).len() == g0[t]@.len());
            }
        }
        let initial = clone_grid(&probabilities);
        let mut history: Vec<Vec<Vec<u64>>> = Vec::new();
        history.push(initial);
        let mut survivals: Vec<usize> = Vec::new();
        survivals.push(2);
        survivals.push(3);
        let mut births: Vec<usize> = Vec::new();
        births.push(3);
        let board = Board { probabilities, survivals, births, history };
        proof {
            assert(board.grid() == grid_view(g0));
            assert(board.survival_rules() =~= seq![2usize, 3usize]);
            assert(board.birth_rules() =~= seq![3usize]);
            assert(grid_view(board.history@[0]@) =~= grid_view(g0));
            assert(board.past() =~= seq![board.grid()]);
        }
        Ok(board)
    }

    /// Atomically replaces both rule lists; the grid and the history are
    /// untouched. Counts outside `0..=8` are accepted: they never match an
    /// achievable neighbour count and contribute a permanently-zero term.
    pub fn change_rules(&mut self, survivals: Vec<usize>, births: Vec<usize>)
        requires
            old(self).wf(),
            survivals@.len() <= MAX_RULES,
            births@.len() <= MAX_RULES,
        ensures
            final(self).wf(),
            final(self).grid() == old(self).grid(),
            final(self).past() == old(self).past(),
            final(self).survival_rules() == survivals@,
            final(self).birth_rules() == births@,
    {
        self.survivals = survivals;
        self.births = births;
        proof {
            assert(self.past() =~= old(self).past());
        }
    }

    /// Number of rows of the grid.
    pub fn height(&self) -> (r: usize)
        ensures
            r == self.grid().len(),
    {
        self.probabilities.len()
    }

    /// Number of columns of the grid (zero only for a rowless board, which
    /// `new` never builds).
    pub fn width(&self) -> (r: usize)
        ensures
            r as int == if self.grid().len() == 0 {
                0int
            } else {
                self.grid()[0].len() as int
            },
    {
        if self.probabilities.len() == 0 {
            0
        } else {
            self.probabilities[0].len()
        }
    }

    /// The current grid of probability numerators.
    pub fn get_state(&self) -> (r: &Vec<Vec<u64>>)
        ensures
            grid_view(r@) == self.grid(),
    {
        &self.probabilities
    }

    /// Every generation so far, oldest first, starting with the initial grid.
    pub fn get_history(&self) -> (r: &Vec<Vec<Vec<u64>>>)
        ensures
            r@.len() == self.past().len(),
            forall|t: int| 0 <= t < r@.len() ==> grid_view((#[trigger] r@[t])@) == self.past()[t],
    {
        &self.history
    }

    /// The probability at `position`, with both coordinates wrapped
    /// toroidally: any pair of integers addresses a cell.
    pub fn get_cell(&self, position: (i32, i32)) -> (r: u64)
        requires
            self.wf(),
            self.grid()[0].len() >= 1,
        ensures
            r == self.grid()[(position.0 as int) % (self.grid().len() as int)][(position.1 as int)
                % (self.grid()[0].len() as int)],
            r <= SCALE,
    {
        let i = wrap_index(position.0, self.probabilities.len());
        let j = wrap_index(position.1, self.probabilities[0].len());
        proof {
            assert(self.grid()[i as int].len() == self.grid()[0].len());
            assert(all_le_scale(self.grid()[i as int]));
        }
        self.probabilities[i][j]
    }

    /// The eight toroidal neighbour probabilities of `position`, in the
    /// fixed row-major order of the 3x3 block minus its centre.
    pub fn get_neighbour_cells(&self, position: (i32, i32)) -> (r: Vec<u64>)
        requires
            self.wf(),
            self.grid()[0].len() >= 1,
        ensures
            r@ == neighbour_probs(self.grid(), position.0 as int, position.1 as int),
            r@.len() == 8,
            all_le_scale(r@),
    {
        let h = self.probabilities.len();
        let w = self.probabilities[0].len();
        let wi = wrap_index(position.0, h);
        let wj = wrap_index(position.1, w);
        let iu = if wi == 0 {
            h - 1
        } else {
            wi - 1
        };
        let id = if wi + 1 == h {
            0
        } else {
            wi + 1
        };
        let jl = if wj == 0 {
            w - 1
        } else {
            wj - 1
        };
        let jr = if wj + 1 == w {
            0
        } else {
            wj + 1
        };
        proof {
            lemma_wrap_pred(position.0 as int, h as int);
            lemma_wrap_succ(position.0 as int, h as int);
            lemma_wrap_pred(position.1 as int, w as int);
            lemma_wrap_succ(position.1 as int, w as int);
            assert(self.grid()[iu as int].len() == self.grid()[0].len());
            assert(self.grid()[wi as int].len() == self.grid()[0].len());
            assert(self.grid()[id as int].len() == self.grid()[0].len());
            assert(all_le_scale(self.grid()[iu as int]));
            assert(all_le_scale(self.grid()[wi as int]));
            assert(all_le_scale(self.grid()[id as int]));
        }
        let mut r: Vec<u64> = Vec::new();
        r.push(self.probabilities[iu][jl]);
        r.push(self.probabilities[iu][wj]);
        r.push(self.probabilities[iu][jr]);
        r.push(self.probabilities[wi][jl]);
        r.push(self.probabilities[wi][jr]);
        r.push(self.probabilities[id][jl]);
        r.push(self.probabilities[id][wj]);
        r.push(self.probabilities[id][jr]);
        proof {
            assert(r@ =~= neighbour_probs(
                self.grid(),
                position.0 as int,
                position.1 as int,
            ));
        }
        r
    }

    /// The probability, over denominator `SCALE^(neighbours.len())`, that
    /// exactly `n_alive` of the given independent probabilities are alive.
    pub fn get_probability_of_n_alive(&self, neighbours: &Vec<u64>, n_alive: usize) -> (r: u128)
        requires
            all_le_scale(neighbours@),
            neighbours@.len() <= MAX_NEIGHBOURS,
        ensures
            r as int == count_prob(neighbours@, n_alive as int),
    {
        let r = count_exactly_alive(neighbours, 0, n_alive);
        proof {
            assert(neighbours@.skip(0) =~= neighbours@);
        }
        r
    }

    /// The next-generation probability of the cell at `position`
    /// (coordinates wrap): alive-now times the survival probability plus
    /// dead-now times the birth probability, floor-divided back to
    /// denominator `SCALE` and clamped.
    pub fn get_next_turn(&self, position: (i32, i32)) -> (r: u64)
        requires
            self.wf(),
            self.grid()[0].len() >= 1,
        ensures
            r as int == next_cell_value(
                self.grid(),
                self.survival_rules(),
                self.birth_rules(),
                position.0 as int,
                position.1 as int,
            ),
            r <= SCALE,
    {
        let neighbours = self.get_neighbour_cells(position);
        let survival_num = sum_rule_probs(&neighbours, &self.survivals);
        let birth_num = sum_rule_probs(&neighbours, &self.births);
        let alive = self.get_cell(position);
        let dead = SCALE - alive;
        proof {
            let sn = survival_num as int;
            let bn = birth_num as int;
            let av = alive as int;
            assert(sn <= 1000000000000000000000000000);
            assert(bn <= 1000000000000000000000000000);
            assert(0 <= av * sn <= 1000000000000000000000000000000 && 0 <= (1000 - av) * bn
                <= 1000000000000000000000000000000) by (nonlinear_arith)
                requires
                    0 <= av <= 1000,
                    0 <= sn <= 1000000000000000000000000000,
                    0 <= bn <= 1000000000000000000000000000,
            ;
        }
        let num: u128 = (alive as u128) * survival_num + (dead as u128) * birth_num;
        let q = num / SCALE_POW_8;
        proof {
            assert(pow_scale(8) == 1000000000000000000000000) by {
                reveal_with_fuel(pow_scale, 9);
            }
            assert(num as int == next_cell_num(
                self.grid(),
                self.survival_rules(),
                self.birth_rules(),
                position.0 as int,
                position.1 as int,
            ));
        }
        if q > (SCALE as u128) {
            SCALE
        } else {
            q as u64
        }
    }

    /// Advances one generation: every cell of the new grid is computed from
    /// the pre-transition grid only; then the new grid replaces the current
    /// one and is appended to the history.
    pub fn next(&mut self)
        requires
            old(self).wf(),
        ensures
            final(self).wf(),
            final(self).survival_rules() == old(self).survival_rules(),
            final(self).birth_rules() == old(self).birth_rules(),
            final(self).grid() == next_grid(
                old(self).grid(),
                old(self).survival_rules(),
                old(self).birth_rules(),
            ),
            final(self).past() == old(self).past().push(final(self).grid()),
    {
        let ghost s0 = old(self).survival_rules();
        let ghost b0 = old(self).birth_rules();
        let ghost g0 = old(self).grid();
        let height = self.probabilities.len();
        let width = self.probabilities[0].len();
        let mut table: Vec<Vec<u64>> = Vec::new();
        let mut i: usize = 0;
        while i < height
            invariant
                *self == *old(self),
                old(self).wf(),
                height == g0.len(),
                width == g0[0].len(),
                g0 == old(self).grid(),
                s0 == old(self).survival_rules(),
                b0 == old(self).birth_rules(),
                i <= height,
                table@.len() == i,
                forall|t: int| 0 <= t < i ==> (#[trigger] table@[t])@.len() == width,
                forall|t: int, c: int|
                    0 <= t < i && 0 <= c < width ==> (#[trigger] table@[t]@[c]) as int
                        == next_cell_value(g0, s0, b0, t, c) && table@[t]@[c] <= SCALE,
            decreases height - i,
        {
            let mut row: Vec<u64> = Vec::new();
            let mut j: usize = 0;
            while j < width
                invariant
                    *self == *old(self),
                    old(self).wf(),
                    height == g0.len(),
                    width == g0[0].len(),
                    g0 == old(self).grid(),
                    s0 == old(self).survival_rules(),
                    b0 == old(self).birth_rules(),
                    i < height,
                    j <= width,
                    row@.len() == j,
                    forall|c: int|
                        0 <= c < j ==> (#[trigger] row@[c]) as int == next_cell_value(
                            g0,
                            s0,
                            b0,
                            i as int,
                            c,
                        ) && row@[c] <= SCALE,
                decreases width - j,
            {
                let v = self.get_next_turn((i as i32, j as i32));
                row.push(v);
                j += 1;
            }
            table.push(row);
            i += 1;
        }
        let ghost tview = table@;
        let snapshot = clone_grid(&table);
        self.probabilities = table;
        self.history.push(snapshot);
        proof {
            assert forall|t: int| 0 <= t < height implies self.grid()[t] =~= next_grid(
                g0,
                s0,
                b0,
            )[t] by {
                assert(self.grid()[t] == tview[t]@);
            }
            assert(self.grid() =~= next_grid(g0, s0, b0));
            assert(grid_view(snapshot@) =~= grid_view(tview));
            assert(self.past() =~= old(self).past().push(self.grid()));
            assert(cells_le_scale(self.grid())) by {
                assert(forall|t: int|
                    0 <= t < height ==> all_le_scale(#[trigger] self.grid()[t]));
            }
        }
    }
}

/// Numerator over `SCALE^8` of the probability that the alive-neighbour
/// count is one of `rules`, summed over the list in order.
fn sum_rule_probs(neighbours: &Vec<u64>, rules: &Vec<usize>) -> (r: u128)
    requires
        all_le_scale(neighbours@),
        neighbours@.len() == 8,
        rules@.len() <= MAX_RULES,
    ensures
        r as int == rules_prob(neighbours@, rules@),
        r as int <= rules@.len() * 1000000000000000000000000,
{
    let mut total: u128 = 0;
    let mut idx: usize = 0;
    proof {
        assert(rules@.skip(0) =~= rules@);
        assert(pow_scale(8) == 1000000000000000000000000) by {
            reveal_with_fuel(pow_scale, 9);
        }
    }
    while idx < rules.len()
        invariant
            idx <= rules@.len(),
            rules@.len() <= MAX_RULES,
            all_le_scale(neighbours@),
            neighbours@.len() == 8,
            pow_scale(8) == 1000000000000000000000000,
            total as int + rules_prob(neighbours@, rules@.skip(idx as int)) == rules_prob(
                neighbours@,
                rules@,
            ),
            total as int <= idx * 1000000000000000000000000,
        decreases rules@.len() - idx,
    {
        let c = count_exactly_alive(neighbours, 0, rules[idx]);
        proof {
            assert(neighbours@.skip(0) =~= neighbours@);
            assert(rules@.skip(idx as int).drop_first() =~= rules@.skip(idx as int + 1));
            assert(rules@.skip(idx as int)[0] == rules@[idx as int]);
            assert(c as int <= pow_scale(8));
        }
        total = total + c;
        idx += 1;
    }
    proof {
        assert(rules@.skip(rules@.len() as int) =~= Seq::<usize>::empty());
    }
    total
}

/// Law (conservation at trivial rule sets): with no survival and no birth
/// counts, every cell's next probability is exactly zero.
pub proof fn lemma_trivial_rules_give_zero(g: Seq<Seq<u64>>)
    ensures
        forall|i: int, j: int| #[trigger] next_cell_value(
            g,
            Seq::<usize>::empty(),
            Seq::<usize>::empty(),
            i,
            j,
        ) == 0,
        forall|i: int, j: int|
            0 <= i < g.len() && 0 <= j < g[0].len() ==> #[trigger] next_grid(
                g,
                Seq::<usize>::empty(),
                Seq::<usize>::empty(),
            )[i][j] == 0,
{
    assert forall|i: int, j: int| #[trigger] next_cell_value(
        g,
        Seq::<usize>::empty(),
        Seq::<usize>::empty(),
        i,
        j,
    ) == 0 by {
        lemma_pow_scale_pos(8);
        assert(rules_prob(neighbour_probs(g, i, j), Seq::<usize>::empty()) == 0);
        assert(next_cell_num(g, Seq::<usize>::empty(), Seq::<usize>::empty(), i, j) == 0);
        lemma_div_of0(pow_scale(8));
    }
}

/// Law (determinism): the step is a function of the board's value alone, so
/// two identically-valued boards produce identical next grids; with `next`'s
/// postcondition this pins two `next()` calls on equal boards to bit-equal
/// results.
pub proof fn lemma_next_deterministic(b1: &Board, b2: &Board)
    requires
        b1.grid() == b2.grid(),
        b1.survival_rules() == b2.survival_rules(),
        b1.birth_rules() == b2.birth_rules(),
    ensures
        next_grid(b1.grid(), b1.survival_rules(), b1.birth_rules()) == next_grid(
            b2.grid(),
            b2.survival_rules(),
            b2.birth_rules(),
        ),
{
}

/// Law (toroidal wrap degeneracy): on a 1x1 grid every one of the eight
/// neighbours of the single cell is that cell itself, whatever integer
/// coordinates address it.
pub proof fn lemma_single_cell_neighbours(g: Seq<Seq<u64>>, i: int, j: int)
    requires
        g.len() == 1,
        g[0].len() == 1,
    ensures
        neighbour_probs(g, i, j).len() == 8,
        forall|t: int| 0 <= t < 8 ==> neighbour_probs(g, i, j)[t] == g[0][0],
{
    assert forall|x: int| #[trigger] (x % 1int) == 0 by {
        lemma_fundamental_div_mod(x, 1);
        lemma_mod_division_less_than_divisor(x, 1);
    }
    assert((i - 1) % 1int == 0);
    assert(i % 1int == 0);
    assert((i + 1) % 1int == 0);
    assert((j - 1) % 1int == 0);
    assert(j % 1int == 0);
    assert((j + 1) % 1int == 0);
}

/// A rule-probability sum is never negative.
pub proof fn lemma_rules_prob_nonneg(ns: Seq<u64>, rules: Seq<usize>)
    requires
        all_le_scale(ns),
    ensures
        0 <= rules_prob(ns, rules),
    decreases rules.len(),
{
    if rules.len() > 0 {
        lemma_count_prob_bounds(ns, rules[0] as int);
        lemma_rules_prob_nonneg(ns, rules.drop_first());
    }
}

/// Law (probabilities stay probabilities): on a well-formed grid with at
/// least one column, the next value of any cell, under any rule lists, lies
/// in `0..=SCALE` again.
pub proof fn lemma_next_cell_in_range(
    g: Seq<Seq<u64>>,
    survivals: Seq<usize>,
    births: Seq<usize>,
    i: int,
    j: int,
)
    requires
        grid_wf(g),
        g[0].len() >= 1,
    ensures
        0 <= next_cell_value(g, survivals, births, i, j) <= SCALE,
{
    let h = g.len() as int;
    let w = g[0].len() as int;
    let ns = neighbour_probs(g, i, j);
    lemma_mod_division_less_than_divisor(i - 1, h);
    lemma_mod_division_less_than_divisor(i, h);
    lemma_mod_division_less_than_divisor(i + 1, h);
    lemma_mod_division_less_than_divisor(j - 1, w);
    lemma_mod_division_less_than_divisor(j, w);
    lemma_mod_division_less_than_divisor(j + 1, w);
    assert(all_le_scale(ns)) by {
        assert(all_le_scale(g[(i - 1) % h]));
        assert(all_le_scale(g[i % h]));
        assert(all_le_scale(g[(i + 1) % h]));
        assert(g[(i - 1) % h].len() == w);
        assert(g[i % h].len() == w);
        assert(g[(i + 1) % h].len() == w);
    }
    lemma_rules_prob_nonneg(ns, survivals);
    lemma_rules_prob_nonneg(ns, births);
    let a = g[i % h][j % w] as int;
    assert(all_le_scale(g[i % h]));
    assert(0 <= a <= 1000);
    let rp_s = rules_prob(ns, survivals);
    let rp_b = rules_prob(ns, births);
    let num = next_cell_num(g, survivals, births, i, j);
    assert(num == a * rp_s + ((SCALE as int) - a) * rp_b);
    assert(0 <= a * rp_s + (1000 - a) * rp_b) by (nonlinear_arith)
        requires
            0 <= a <= 1000,
            0 <= rp_s,
            0 <= rp_b,
    ;
    lemma_pow_scale_pos(8);
    lemma_div_pos_is_pos(num, pow_scale(8));
}

/// Every cell of the grid is exactly zero or `SCALE`.
pub open spec fn binary_grid(g: Seq<Seq<u64>>) -> bool {
    forall|i: int| 0 <= i < g.len() ==> is_binary(#[trigger] g[i])
}

/// Classic Game-of-Life step of a binary grid, `SCALE` standing for alive:
/// an alive cell survives with two or three alive neighbours, a dead cell is
/// born with exactly three.
pub open spec fn classic_alive_next(g: Seq<Seq<u64>>, i: int, j: int) -> bool {
    let m = alive_count(neighbour_probs(g, i, j));
    if g[i][j] == SCALE {
        m == 2 || m == 3
    } else {
        m == 3
    }
}

/// Law (binary-input equivalence): on a grid of probabilities that are all
/// exactly zero or one, one step under the standard rules (survivals 2 and
/// 3, births 3) is exactly the classic deterministic Game-of-Life step.
pub proof fn lemma_binary_classic_step(g: Seq<Seq<u64>>, i: int, j: int)
    requires
        grid_wf(g),
        binary_grid(g),
        0 <= i < g.len(),
        0 <= j < g[0].len(),
    ensures
        next_cell_value(g, seq![2usize, 3usize], seq![3usize], i, j) == if classic_alive_next(
            g,
            i,
            j,
        ) {
            SCALE as int
        } else {
            0
        },
{
    let h = g.len() as int;
    let w = g[0].len() as int;
    let ns = neighbour_probs(g, i, j);
    lemma_mod_division_less_than_divisor(i - 1, h);
    lemma_mod_division_less_than_divisor(i, h);
    lemma_mod_division_less_than_divisor(i + 1, h);
    lemma_mod_division_less_than_divisor(j - 1, w);
    lemma_mod_division_less_than_divisor(j, w);
    lemma_mod_division_less_than_divisor(j + 1, w);
    assert(is_binary(ns)) by {
        assert(is_binary(g[(i - 1) % h]));
        assert(is_binary(g[i % h]));
        assert(is_binary(g[(i + 1) % h]));
    }
    lemma_binary_count_prob(ns, 2);
    lemma_binary_count_prob(ns, 3);
    let m = alive_count(ns);
    assert(seq![2usize, 3usize].drop_first() =~= seq![3usize]);
    assert(seq![3usize].drop_first() =~= Seq::<usize>::empty());
    assert(rules_prob(ns, Seq::<usize>::empty()) == 0);
    assert(seq![3usize][0] == 3usize);
    assert(seq![2usize, 3usize][0] == 2usize);
    assert(rules_prob(ns, seq![3usize]) == count_prob(ns, 3));
    assert(rules_prob(ns, seq![2usize, 3usize]) == count_prob(ns, 2) + count_prob(ns, 3));
    lemma_fundamental_div_mod_converse_mod(i, h, 0, i);
    lemma_fundamental_div_mod_converse_mod(j, w, 0, j);
    assert(i % h == i && j % w == j);
    let p8 = pow_scale(8);
    lemma_pow_scale_pos(8);
    assert(ns.len() == 8);
    let rp_s = rules_prob(ns, seq![2usize, 3usize]);
    let rp_b = rules_prob(ns, seq![3usize]);
    let num = next_cell_num(g, seq![2usize, 3usize], seq![3usize], i, j);
    let a = g[i % h][j % w] as int;
    assert(num == a * rp_s + ((SCALE as int) - a) * rp_b);
    assert(g[i % h][j % w] == g[i][j]);
    assert(is_binary(g[i]));
    if g[i][j] == SCALE {
        assert(a == 1000);
        assert(a * rp_s == 1000 * rp_s && ((SCALE as int) - a) * rp_b == 0) by (nonlinear_arith)
            requires
                a == 1000,
                (SCALE as int) == 1000,
        ;
        assert(num == 1000 * rp_s);
        if m == 2 || m == 3 {
            assert(rp_s == p8);
            lemma_div_by_multiple(1000, p8);
            assert((1000 * p8) / p8 == 1000);
        } else {
            assert(rp_s == 0);
            assert(num == 0);
            lemma_div_of0(p8);
        }
    } else {
        assert(g[i][j] == 0);
        assert(a == 0);
        assert(a * rp_s == 0 && ((SCALE as int) - a) * rp_b == 1000 * rp_b) by (nonlinear_arith)
            requires
                a == 0,
                (SCALE as int) == 1000,
        ;
        assert(num == 1000 * rp_b);
        if m == 3 {
            assert(rp_b == p8);
            lemma_div_by_multiple(1000, p8);
            assert((1000 * p8) / p8 == 1000);
        } else {
            assert(rp_b == 0);
            assert(num == 0);
            lemma_div_of0(p8);
        }
    }
}


proof fn lemma_wrap_pred(x: int, m: int)
    requires
        m >= 1,
    ensures
        (x - 1) % m == if x % m == 0 {
            m - 1
        } else {
            x % m - 1
        },
{
    lemma_fundamental_div_mod(x, m);
    lemma_mod_division_less_than_divisor(x, m);
    let q = x / m;
    let r0 = x % m;
    if r0 == 0 {
        assert(x - 1 == (q - 1) * m + (m - 1)) by (nonlinear_arith)
            requires
                x == m * q,
        ;
        lemma_fundamental_div_mod_converse_mod(x - 1, m, q - 1, m - 1);
    } else {
        assert(x - 1 == q * m + (r0 - 1)) by (nonlinear_arith)
            requires
                x == m * q + r0,
        ;
        lemma_fundamental_div_mod_converse_mod(x - 1, m, q, r0 - 1);
    }
}

proof fn lemma_wrap_succ(x: int, m: int)
    requires
        m >= 1,
    ensures
        (x + 1) % m == if x % m == m - 1 {
            0
        } else {
            x % m + 1
        },
{
    lemma_fundamental_div_mod(x, m);
    lemma_mod_division_less_than_divisor(x, m);
    let q = x / m;
    let r0 = x % m;
    if r0 == m - 1 {
        assert(x + 1 == (q + 1) * m + 0) by (nonlinear_arith)
            requires
                x == m * q + r0,
                r0 == m - 1,
        ;
        lemma_fundamental_div_mod_converse_mod(x + 1, m, q + 1, 0);
    } else {
        assert(x + 1 == q * m + (r0 + 1)) by (nonlinear_arith)
            requires
                x == m * q + r0,
        ;
        lemma_fundamental_div_mod_converse_mod(x + 1, m, q, r0 + 1);
    }
}

/// Floored (toroidal) remainder of `x` modulo `m`, as an index into `0..m`:
/// any integer coordinate is valid, negative ones wrap from the far edge.
fn wrap_index(x: i32, m: usize) -> (r: usize)
    requires
        1 <= m <= MAX_SIDE,
    ensures
        r as int == (x as int) % (m as int),
        r < m,
{
    proof {
        lemma_mod_division_less_than_divisor(x as int, m as int);
    }
    if x >= 0 {
        (x as usize) % m
    } else {
        let a: usize = (-(x as i64)) as usize;
        let rem: usize = a % m;
        proof {
            lemma_fundamental_div_mod(a as int, m as int);
            let u = a as int / m as int;
            if rem == 0 {
                assert(x as int == (0 - u) * (m as int)) by (nonlinear_arith)
                    requires
                        a as int == (m as int) * u,
                        x as int == 0 - a as int,
                ;
                lemma_mod_multiples_basic(0 - u, m as int);
            } else {
                assert(x as int == (0 - u - 1) * (m as int) + ((m as int) - (rem as int)))
                    by (nonlinear_arith)
                    requires
                        a as int == (m as int) * u + (rem as int),
                        x as int == 0 - a as int,
                ;
                lemma_fundamental_div_mod_converse_mod(
                    x as int,
                    m as int,
                    0 - u - 1,
                    (m as int) - (rem as int),
                );
            }
        }
        if rem == 0 {
            0
        } else {
            m - rem
        }
    }
}

/// An element-for-element copy of a grid.
fn clone_grid(g: &Vec<Vec<u64>>) -> (r: Vec<Vec<u64>>)
    ensures
        r@.len() == g@.len(),
        forall|i: int| 0 <= i < g@.len() ==> (#[trigger] r@[i])@ == g@[i]@,
{
    let mut r: Vec<Vec<u64>> = Vec::new();
    let mut i: usize = 0;
    while i < g.len()
        invariant
            i <= g@.len(),
            r@.len() == i,
            forall|t: int| 0 <= t < i ==> (#[trigger] r@[t])@ == g@[t]@,
        decreases g@.len() - i,
    {
        let mut row: Vec<u64> = Vec::new();
        let mut j: usize = 0;
        while j < g[i].len()
            invariant
                i < g@.len(),
                j <= g@[i as int]@.len(),
                row@ == g@[i as int]@.take(j as int),
            decreases g@[i as int]@.len() - j,
        {
            row.push(g[i][j]);
            proof {
                assert(row@ =~= g@[i as int]@.take(j as int + 1));
            }
            j += 1;
        }
        proof {
            assert(row@ =~= g@[i as int]@);
        }
        r.push(row);
        i += 1;
    }
    r
}

} // verus!
