//! Policy vectors over the dense action space, their restriction to the
//! legal moves, and the evaluator interface the search engine consumes.
//!
//! Probabilities and game values are fixed-point numbers: `UNIT` stands for
//! 1.0, so a probability lies in `[0, UNIT]` and a value in `[-UNIT, UNIT]`.

use vstd::prelude::*;
use vstd::arithmetic::div_mod::{
    lemma_fundamental_div_mod, lemma_div_is_ordered, lemma_div_multiples_vanish,
};
use crate::game::{Game, Position, PositionList};

verus! {

/// The fixed-point representation of 1.0 for probabilities and values.
pub const UNIT: i64 = 10000;

/// The sum of a sequence of fixed-point numbers.
pub open spec fn seq_sum(s: Seq<i64>) -> int
    decreases s.len(),
{
    if s.len() == 0 {
        0
    } else {
        seq_sum(s.drop_last()) + s.last()
    }
}

/// Summing one more element on the right.
pub proof fn lemma_seq_sum_push(s: Seq<i64>, v: i64)
    ensures
        seq_sum(s.push(v)) == seq_sum(s) + v,
{
    assert(s.push(v).drop_last() =~= s);
    assert(s.push(v).last() == v);
}

/// A sequence of entries all bounded below keeps its sum bounded below.
pub proof fn lemma_seq_sum_bounds(s: Seq<i64>, lo: int, hi: int)
    requires
        forall|k: int| 0 <= k < s.len() ==> lo <= #[trigger] s[k] <= hi,
    ensures
        s.len() * lo <= seq_sum(s) <= s.len() * hi,
    decreases s.len(),
{
    if s.len() > 0 {
        lemma_seq_sum_bounds(s.drop_last(), lo, hi);
        assert((s.len() - 1) * lo + lo == s.len() * lo) by (nonlinear_arith);
        assert((s.len() - 1) * hi + hi == s.len() * hi) by (nonlinear_arith);
    }
}

/// Division by a positive number is superadditive on the floor:
/// `a/t + b/t <= (a+b)/t` for nonnegative `a`, `b`.
pub proof fn lemma_div_superadditive(a: int, b: int, t: int)
    requires
        0 <= a,
        0 <= b,
        0 < t,
    ensures
        a / t + b / t <= (a + b) / t,
{
    lemma_fundamental_div_mod(a, t);
    lemma_fundamental_div_mod(b, t);
    assert(t * (a / t + b / t) == t * (a / t) + t * (b / t)) by (nonlinear_arith);
    lemma_div_is_ordered(t * (a / t + b / t), a + b, t);
    lemma_div_multiples_vanish(a / t + b / t, t);
}

/// No element of a nonnegative sequence exceeds the sequence's sum.
pub proof fn lemma_seq_sum_element_le(s: Seq<i64>, k: int)
    requires
        forall|j: int| 0 <= j < s.len() ==> 0 <= #[trigger] s[j],
        0 <= k < s.len(),
    ensures
        s[k] <= seq_sum(s),
    decreases s.len(),
{
    if k == s.len() - 1 {
        lemma_seq_sum_bounds(s.drop_last(), 0, i64::MAX as int);
        assert(s.drop_last().len() * 0 == 0) by (nonlinear_arith);
    } else {
        lemma_seq_sum_element_le(s.drop_last(), k);
    }
}

/// A probability vector over the whole action space. The entries need not
/// sum to 1; masking to the legal moves renormalizes them.
#[derive(Debug, PartialEq, Eq)]
pub struct RawPolicy<const N: usize> {
    pub entries: Vec<i64>,
}

impl<const N: usize> Clone for RawPolicy<N> {
    fn clone(&self) -> (r: Self)
        ensures
            r.view_spec() == self.view_spec(),
    {
        RawPolicy { entries: self.entries.clone() }
    }
}

impl<const N: usize> RawPolicy<N> {
    /// One nonnegative fixed-point entry for each of the `N` actions. The
    /// action space is kept small enough that fixed-point sums fit an `i64`.
    pub open spec fn wf(self) -> bool {
        &&& self.entries@.len() == N
        &&& N <= 100_000
        &&& forall|i: int| 0 <= i < N ==> 0 <= #[trigger] self.entries@[i]
    }

    pub open spec fn view_spec(self) -> Seq<i64> {
        self.entries@
    }

    pub fn new(entries: Vec<i64>) -> (r: Self)
        requires
            entries@.len() == N,
            N <= 100_000,
            forall|i: int| 0 <= i < N ==> 0 <= #[trigger] entries@[i],
        ensures
            r.wf(),
            r.view_spec() == entries@,
    {
        RawPolicy { entries }
    }

    pub fn get(&self, i: usize) -> (r: i64)
        requires
            i < N,
            self.wf(),
        ensures
            r == self.view_spec()[i as int],
    {
        self.entries[i]
    }

    pub fn len(&self) -> (r: usize)
        requires
            self.wf(),
        ensures
            r == N,
    {
        self.entries.len()
    }

    /// Restrict this policy to the legal moves of `game` and renormalize the
    /// retained probabilities so they sum to `UNIT` exactly: every entry but
    /// the first is the floor of its proportional share, and the first entry
    /// absorbs the rounding remainder.
    pub fn mask_policy<G: Game<N>>(&self, game: &G) -> (r: Policy<G, N>)
        requires
            self.wf(),
            game.wf(),
            !game.over_spec(),
            forall|i: int| 0 <= i < N ==> 0 < #[trigger] self.view_spec()[i] <= UNIT,
        ensures
            r.wf(),
            r.positions@ == game.moves_spec(),
            r.probabilities@.len() == game.moves_spec().len(),
            seq_sum(r.probabilities@) == UNIT,
            forall|k: int|
                1 <= k < game.moves_spec().len() ==> #[trigger] r.probabilities@[k] == self.view_spec()[
                    game.moves_spec()[k].index_spec()
                ] * UNIT / seq_sum(masked_entries(self.view_spec(), game.moves_spec())),
    {
        let positions = game.valid_moves();
        proof {
            game.lemma_moves();
        }
        let ghost moves = game.moves_spec();
        let ghost masked = masked_entries(self.view_spec(), moves);
        let n = positions.len();

        // Gather the entries of the legal moves and their sum.
        let mut picked: Vec<i64> = Vec::new();
        let mut total: i64 = 0;
        let mut k: usize = 0;
        while k < n
            invariant
                k <= n,
                n == moves.len(),
                n <= 100_000,
                self.wf(),
                positions@ == moves,
                forall|j: int|
                    0 <= j < moves.len() ==> (#[trigger] moves[j]).valid_spec() && 0 <= moves[j].index_spec()
                        < N,
                forall|i: int| 0 <= i < N ==> 0 < #[trigger] self.view_spec()[i] <= UNIT,
                masked == masked_entries(self.view_spec(), moves),
                picked@ == masked.take(k as int),
                total == seq_sum(masked.take(k as int)),
                0 <= total <= k * UNIT,
            decreases n - k,
        {
            let pos = positions.get(k);
            let idx = pos.to_index();
            let p = self.entries[idx];
            proof {
                assert(masked.take(k as int + 1).drop_last() =~= masked.take(k as int));
                assert(masked.take(k as int + 1).last() == p);
                assert(picked@.push(p) =~= masked.take(k as int + 1));
                assert((k as int) * UNIT + UNIT == (k as int + 1) * UNIT) by (nonlinear_arith);
                assert((k as int) * UNIT <= 100_000 * UNIT) by (nonlinear_arith)
                    requires
                        0 <= k <= 100_000,
                ;
            }
            picked.push(p);
            total = total + p;
            k = k + 1;
        }
        proof {
            assert(masked.take(n as int) =~= masked);
            lemma_seq_sum_bounds(masked, 1, UNIT as int);
            assert(masked.len() * 1 == masked.len()) by (nonlinear_arith);
        }

        // Each retained probability is its floor share of `UNIT`; the first
        // absorbs what floor rounding left over.
        let mut probabilities: Vec<i64> = Vec::new();
        let mut assigned: i64 = 0;
        let mut k: usize = 0;
        while k < n
            invariant
                k <= n,
                n == masked.len(),
                picked@ == masked,
                total == seq_sum(masked),
                0 < n <= total,
                forall|j: int| 0 <= j < n ==> 1 <= #[trigger] masked[j] <= UNIT,
                probabilities@.len() == k,
                forall|j: int|
                    0 <= j < k ==> #[trigger] probabilities@[j] == masked[j] * UNIT / (
                    total as int),
                forall|j: int| 0 <= j < k ==> 0 <= #[trigger] probabilities@[j] <= UNIT,
                assigned == seq_sum(probabilities@),
                assigned <= seq_sum(masked.take(k as int)) * UNIT / (total as int),
                0 <= assigned <= UNIT,
            decreases n - k,
        {
            let p = picked[k];
            proof {
                assert(0 <= p * UNIT <= UNIT * UNIT) by (nonlinear_arith)
                    requires
                        1 <= p <= UNIT,
                ;
                lemma_div_is_ordered(0, p as int * UNIT, total as int);
                assert(p * UNIT / (total as int) <= UNIT) by {
                    lemma_seq_sum_element_le(masked, k as int);
                    assert(p * UNIT <= total * UNIT) by (nonlinear_arith)
                        requires
                            p <= total,
                            UNIT > 0,
                    ;
                    lemma_div_is_ordered(p as int * UNIT, total as int * UNIT, total as int);
                    lemma_div_multiples_vanish(UNIT as int, total as int);
                    assert(total as int * UNIT == UNIT * (total as int)) by (nonlinear_arith);
                }
            }
            let q = p * UNIT / total;
            proof {
                lemma_seq_sum_push(probabilities@, q);
                assert(forall|j: int|
                    0 <= j < masked.take(k as int).len() ==> 0 <= #[trigger] masked.take(
                        k as int,
                    )[j]);
                lemma_seq_sum_bounds(masked.take(k as int), 0, UNIT as int);
                assert(masked.take(k as int).len() * 0 == 0) by (nonlinear_arith);
                assert(0 <= seq_sum(masked.take(k as int)) * UNIT) by (nonlinear_arith)
                    requires
                        0 <= seq_sum(masked.take(k as int)),
                        UNIT > 0,
                ;
                lemma_div_superadditive(
                    seq_sum(masked.take(k as int)) * UNIT,
                    p as int * UNIT,
                    total as int,
                );
                assert(masked.take(k as int).push(p) =~= masked.take(k as int + 1));
                lemma_seq_sum_push(masked.take(k as int), p);
                assert((seq_sum(masked.take(k as int)) + p) * UNIT == seq_sum(
                    masked.take(k as int),
                ) * UNIT + p * UNIT) by (nonlinear_arith);
                // The running total of floors never exceeds `UNIT`.
                lemma_seq_sum_bounds(masked.take(k as int + 1), 0, UNIT as int);
                assert(seq_sum(masked.take(k as int + 1)) <= total) by {
                    lemma_seq_sum_take_le(masked, k as int + 1);
                }
                assert(seq_sum(masked.take(k as int + 1)) * UNIT <= total * UNIT)
                    by (nonlinear_arith)
                    requires
                        seq_sum(masked.take(k as int + 1)) <= total as int,
                        UNIT > 0,
                ;
                lemma_div_is_ordered(
                    seq_sum(masked.take(k as int + 1)) * UNIT,
                    total as int * UNIT,
                    total as int,
                );
                lemma_div_multiples_vanish(UNIT as int, total as int);
                assert(total as int * UNIT == UNIT * (total as int)) by (nonlinear_arith);
            }
            probabilities.push(q);
            assigned = assigned + q;
            k = k + 1;
        }
        // `assigned <= UNIT` here; hand the remainder to the first entry.
        let first = probabilities[0];
        proof {
            lemma_seq_sum_element_le(probabilities@, 0);
        }
        let corrected = first + (UNIT - assigned);
        proof {
            lemma_sum_update_first(probabilities@, corrected);
        }
        probabilities.set(0, corrected);

        Policy { positions, probabilities }
    }
}

/// Replacing the first element changes the sum by the difference.
proof fn lemma_sum_update_first(s: Seq<i64>, v: i64)
    requires
        s.len() > 0,
    ensures
        seq_sum(s.update(0, v)) == seq_sum(s) - s[0] + v,
    decreases s.len(),
{
    if s.len() == 1 {
        assert(s.update(0, v).drop_last() =~= s.drop_last());
        assert(s.update(0, v).last() == v);
    } else {
        assert(s.update(0, v).drop_last() =~= s.drop_last().update(0, v));
        lemma_sum_update_first(s.drop_last(), v);
        assert(s.drop_last()[0] == s[0]);
        assert(s.update(0, v).last() == s.last());
    }
}

/// A prefix of a nonnegative sequence sums to no more than the whole.
proof fn lemma_seq_sum_take_le(s: Seq<i64>, m: int)
    requires
        0 <= m <= s.len(),
        forall|j: int| 0 <= j < s.len() ==> 0 <= #[trigger] s[j],
    ensures
        seq_sum(s.take(m)) <= seq_sum(s),
    decreases s.len() - m,
{
    if m == s.len() {
        assert(s.take(m) =~= s);
    } else {
        assert(s.take(m + 1).drop_last() =~= s.take(m));
        assert(s.take(m + 1).last() == s[m]);
        lemma_seq_sum_take_le(s, m + 1);
    }
}

/// The raw-policy entries of each legal move, in move order.
pub open spec fn masked_entries<P: Position>(entries: Seq<i64>, moves: Seq<P>) -> Seq<i64> {
    Seq::new(moves.len(), |k: int| entries[moves[k].index_spec()])
}

/// A raw policy restricted to the legal moves: positions and the matching
/// renormalized probabilities, kept in move-enumeration order.
pub struct Policy<G: Game<N>, const N: usize> {
    pub positions: PositionList<G::Position>,
    pub probabilities: Vec<i64>,
}

impl<G: Game<N>, const N: usize> Policy<G, N> {
    /// Parallel lists, and every probability is a fixed-point value in
    /// `[0, UNIT]`.
    pub open spec fn wf(self) -> bool {
        &&& self.positions@.len() == self.probabilities@.len()
        &&& forall|k: int|
            0 <= k < self.probabilities@.len() ==> 0 <= #[trigger] self.probabilities@[k] <= UNIT
    }

    pub fn len(&self) -> (r: usize)
        ensures
            r == self.positions@.len(),
    {
        self.positions.len()
    }

    pub fn position_at(&self, k: usize) -> (r: G::Position)
        requires
            k < self.positions@.len(),
        ensures
            r == self.positions@[k as int],
    {
        self.positions.get(k)
    }

    pub fn probability_at(&self, k: usize) -> (r: i64)
        requires
            k < self.probabilities@.len(),
        ensures
            r == self.probabilities@[k as int],
    {
        self.probabilities[k]
    }
}

/// The evaluator the tree search consults: hands back a prior over the whole
/// action space (strictly positive, at most `UNIT` per entry) and a bounded
/// scalar value estimate for the side to move.
pub trait Agent<G: Game<N>, const N: usize> {
    fn eval_game(&mut self, game: &G) -> (r: (RawPolicy<N>, i64))
        requires
            game.wf(),
        ensures
            r.0.wf(),
            forall|i: int| 0 <= i < N ==> 0 < #[trigger] r.0.view_spec()[i] <= UNIT,
            -UNIT <= r.1 <= UNIT,
    ;
}

} // verus!
