//! The Monte-Carlo tree search engine: an arena tree of game-state nodes
//! addressed by integer ids, PUCT selection, expansion through an evaluator,
//! and alternating-perspective value backup.
//!
//! Node statistics are exact integers: visit counts, and fixed-point value
//! totals (`UNIT` is 1.0). PUCT scores are compared as exact rationals, so
//! selection is reproducible and provable; the only rounding lies in the
//! integer square root of the sibling visit count.

use vstd::prelude::*;
use vstd::arithmetic::div_mod::{lemma_div_is_ordered, lemma_div_multiples_vanish};
use crate::game::{Game, GameStatus, Position};
use crate::policy::{Agent, RawPolicy, UNIT, seq_sum};

verus! {

/// The most backups any one tree accepts; keeps every statistic far from
/// overflow when scores are cross-multiplied.
pub const MAX_VISITS: u32 = 1_000_000;

/// `r` is the integer square root of `x`.
pub open spec fn is_sqrt(x: int, r: int) -> bool {
    0 <= r && r * r <= x && (r + 1) * (r + 1) > x
}

/// The integer square root of a nonnegative number.
pub open spec fn sqrt_of(x: int) -> int {
    choose|r: int| is_sqrt(x, r)
}

/// Integer square roots are unique, so `sqrt_of` returns the witness.
pub proof fn lemma_sqrt_unique(x: int, r: int)
    requires
        is_sqrt(x, r),
    ensures
        sqrt_of(x) == r,
{
    assert(exists|q: int| is_sqrt(x, q)) by {
        assert(is_sqrt(x, r));
    }
    let q = sqrt_of(x);
    assert(is_sqrt(x, q));
    if q < r {
        assert((q + 1) * (q + 1) <= r * r) by (nonlinear_arith)
            requires
                0 <= q < r,
        ;
    }
    if r < q {
        assert((r + 1) * (r + 1) <= q * q) by (nonlinear_arith)
            requires
                0 <= r < q,
        ;
    }
}

/// Binary-search integer square root.
fn isqrt(x: u128) -> (r: u128)
    requires
        x < 18446744073709551616u128,  // 2^64, so the search can start at 2^32
    ensures
        is_sqrt(x as int, r as int),
        r as int == sqrt_of(x as int),
        r <= 4294967296u128,
{
    let mut lo: u128 = 0;
    let mut hi: u128 = 4294967296u128;  // 2^32
    proof {
        assert(4294967296u128 * 4294967296u128 == 18446744073709551616u128) by (nonlinear_arith);
    }
    while lo + 1 < hi
        invariant
            lo < hi,
            hi <= 4294967296u128,
            (lo * lo) as int <= x as int,
            (hi * hi) as int > x as int,
        decreases hi - lo,
    {
        let mid = lo + (hi - lo) / 2;
        proof {
            assert(mid * mid <= 4294967296u128 * 4294967296u128) by (nonlinear_arith)
                requires
                    mid <= 4294967296u128,
            ;
        }
        if mid * mid <= x {
            lo = mid;
        } else {
            hi = mid;
        }
    }
    proof {
        lemma_sqrt_unique(x as int, lo as int);
    }
    lo
}

/// A node either awaits expansion or has been expanded; an expanded node is
/// terminal (a finished game) or carries one child per legal move.
#[derive(Debug, Clone, Copy, PartialEq, Eq, Structural)]
pub enum GameNodeState {
    Expanded { is_terminal: bool },
    NotExpanded,
}

/// The mean action value `Q = W / N`, rounded toward zero; 0 before any
/// visit.
pub open spec fn action_value_spec(w: int, n: int) -> int {
    if n <= 0 {
        0
    } else if w >= 0 {
        w / n
    } else {
        -((-w) / n)
    }
}

/// One node of the search tree: visit count `N`, prior probability `P`,
/// total backed-up value `W`, derived mean value `Q`, the owned game-state
/// snapshot, the expansion state, and the action that produced this node
/// from its parent (absent only at the root).
#[derive(Clone, Copy)]
pub struct GameNode<G: Game<N>, const N: usize> {
    pub num_visits: u32,
    pub prior_prob: i64,
    pub total_value: i64,
    pub action_value: i64,
    pub game_state: G,
    pub node_state: GameNodeState,
    pub previous_action: Option<G::Position>,
}

impl<G: Game<N>, const N: usize> GameNode<G, N> {
    /// The statistics stay in range: the prior is a probability, the total
    /// value is bounded by the visits, and `Q` is the rounded mean.
    pub open spec fn wf(self) -> bool {
        &&& 0 <= self.prior_prob <= UNIT
        &&& self.num_visits <= MAX_VISITS
        &&& -(self.num_visits as int) * UNIT <= self.total_value as int <= (
        self.num_visits as int) * UNIT
        &&& self.action_value as int == action_value_spec(
            self.total_value as int,
            self.num_visits as int,
        )
        &&& self.game_state.wf()
    }

    pub fn new(
        prior_prob: i64,
        game_state: G,
        node_state: GameNodeState,
        previous_action: Option<G::Position>,
    ) -> (r: Self)
        requires
            0 <= prior_prob <= UNIT,
            game_state.wf(),
        ensures
            r == (GameNode {
                num_visits: 0u32,
                prior_prob,
                total_value: 0i64,
                action_value: 0i64,
                game_state,
                node_state,
                previous_action,
            }),
            r.wf(),
    {
        GameNode {
            num_visits: 0,
            prior_prob,
            total_value: 0,
            action_value: 0,
            game_state,
            node_state,
            previous_action,
        }
    }

    /// Whether the owned snapshot is a finished game.
    pub fn is_terminal(&self) -> (r: bool)
        requires
            self.game_state.wf(),
        ensures
            r == self.game_state.over_spec(),
    {
        let status = self.game_state.status();
        !(matches!(status, GameStatus::InProgress { .. }))
    }

    /// Recompute `Q = W / N` after the statistics changed.
    pub fn update_action_value(&mut self)
        requires
            old(self).num_visits > 0,
            -(old(self).num_visits as int) * UNIT <= old(self).total_value as int <= (old(
                self,
            ).num_visits as int) * UNIT,
        ensures
            *final(self) == (GameNode {
                action_value: (action_value_spec(
                    old(self).total_value as int,
                    old(self).num_visits as int,
                )) as i64,
                ..*old(self)
            }),
    {
        proof {
            let w = old(self).total_value as int;
            let n = old(self).num_visits as int;
            assert(w >= 0 ==> 0 <= w / n <= w) by (nonlinear_arith)
                requires
                    n > 0,
            ;
            assert(w < 0 ==> 0 <= (-w) / n <= -w) by (nonlinear_arith)
                requires
                    n > 0,
            ;
        }
        let n = self.num_visits as u64;
        if self.total_value >= 0 {
            let mag = (self.total_value as u64) / n;
            self.action_value = mag as i64;
        } else {
            let mag = ((-self.total_value) as u64) / n;
            self.action_value = -(mag as i64);
        }
    }
}

/// The sum of the visit counts of the nodes listed in `kids`.
pub open spec fn visit_sum<G: Game<N>, const N: usize>(
    nodes: Seq<GameNode<G, N>>,
    kids: Seq<usize>,
) -> int
    decreases kids.len(),
{
    if kids.len() == 0 {
        0
    } else {
        visit_sum(nodes, kids.drop_last()) + if kids.last() < nodes.len() {
            nodes[kids.last() as int].num_visits as int
        } else {
            0
        }
    }
}

/// Visit sums are bounded by the per-node cap.
pub proof fn lemma_visit_sum_bounds<G: Game<N>, const N: usize>(
    nodes: Seq<GameNode<G, N>>,
    kids: Seq<usize>,
)
    requires
        forall|i: int| 0 <= i < nodes.len() ==> (#[trigger] nodes[i]).num_visits <= MAX_VISITS,
    ensures
        0 <= visit_sum(nodes, kids) <= kids.len() * (MAX_VISITS as int),
    decreases kids.len(),
{
    if kids.len() > 0 {
        lemma_visit_sum_bounds(nodes, kids.drop_last());
        assert((kids.len() - 1) * (MAX_VISITS as int) + MAX_VISITS as int == kids.len() * (
        MAX_VISITS as int)) by (nonlinear_arith);
    }
}

/// A listed node's visits never exceed the sum, and pointwise-larger visit
/// counts give a larger sum.
pub proof fn lemma_visit_sum_element<G: Game<N>, const N: usize>(
    nodes: Seq<GameNode<G, N>>,
    kids: Seq<usize>,
    k: int,
)
    requires
        0 <= k < kids.len(),
        kids[k] < nodes.len(),
    ensures
        visit_sum(nodes, kids) >= nodes[kids[k] as int].num_visits,
    decreases kids.len(),
{
    if k == kids.len() - 1 {
        lemma_visit_sum_nonneg(nodes, kids.drop_last());
    } else {
        lemma_visit_sum_element(nodes, kids.drop_last(), k);
    }
}

pub proof fn lemma_visit_sum_nonneg<G: Game<N>, const N: usize>(
    nodes: Seq<GameNode<G, N>>,
    kids: Seq<usize>,
)
    ensures
        visit_sum(nodes, kids) >= 0,
    decreases kids.len(),
{
    if kids.len() > 0 {
        lemma_visit_sum_nonneg(nodes, kids.drop_last());
    }
}

/// The search tree: an arena of nodes addressed by index, the parent-to-
/// children edges, the exploration constant, and how many backups the tree
/// has absorbed. Children always have larger ids than their parent, so the
/// tree is acyclic by construction.
pub struct MCTS<G: Game<N>, const N: usize> {
    pub nodes: Vec<GameNode<G, N>>,
    pub children: Vec<Vec<usize>>,
    pub c_puct: i64,
    pub total_backups: u32,
}

impl<G: Game<N>, const N: usize> MCTS<G, N> {
    /// Node `i` is expanded and not terminal: the only nodes that carry
    /// children and can be descended through.
    pub open spec fn expanded_live(self, i: int) -> bool {
        self.nodes@[i].node_state == (GameNodeState::Expanded { is_terminal: false })
    }

    /// The children of an expanded non-terminal node mirror the legal moves
    /// of its state, in enumeration order: child `k` was produced by move
    /// `k` and owns the successor snapshot.
    pub open spec fn children_match(self, i: int) -> bool {
        let moves = self.nodes@[i].game_state.moves_spec();
        &&& self.children@[i]@.len() == moves.len()
        &&& forall|k: int|
            0 <= k < moves.len() ==> (#[trigger] self.nodes@[self.children@[i]@[k] as int]).previous_action
                == Some(moves[k]) && self.nodes@[self.children@[i]@[k] as int].game_state
                == self.nodes@[i].game_state.step_spec(moves[k])
    }

    pub open spec fn wf(self) -> bool {
        &&& self.nodes@.len() == self.children@.len()
        &&& 1 <= self.nodes@.len()
        &&& N <= 100_000
        &&& 0 < self.c_puct <= 100 * UNIT
        &&& self.total_backups <= MAX_VISITS
        &&& forall|i: int| 0 <= i < self.nodes@.len() ==> (#[trigger] self.nodes@[i]).wf()
        &&& forall|i: int|
            0 <= i < self.nodes@.len() ==> (#[trigger] self.nodes@[i]).num_visits
                <= self.total_backups
        &&& forall|i: int, k: int|
            0 <= i < self.children@.len() && 0 <= k < self.children@[i]@.len() ==> i < (
            #[trigger] self.children@[i]@[k]) < self.nodes@.len()
        &&& forall|i: int|
            0 <= i < self.nodes@.len() && !self.expanded_live(i) ==> self.children@[i]@.len()
                == 0
        &&& forall|i: int|
            0 <= i < self.nodes@.len() && self.expanded_live(i) ==> self.children_match(i)
        &&& forall|i: int|
            0 <= i < self.nodes@.len() && self.expanded_live(i)
                ==> !(#[trigger] self.nodes@[i]).game_state.over_spec()
        &&& forall|i: int|
            0 <= i < self.nodes@.len() && (#[trigger] self.nodes@[i]).node_state == (
            GameNodeState::Expanded { is_terminal: true })
                ==> self.nodes@[i].game_state.over_spec()
    }

    /// Start a fresh tree rooted at the given state, with an exploration
    /// constant of 1.0 and no statistics yet.
    pub fn from_root_game_state(root_game_state: G) -> (r: Self)
        requires
            root_game_state.wf(),
            N <= 100_000,
        ensures
            r.wf(),
            r.nodes@.len() == 1,
            r.nodes@[0].game_state == root_game_state,
            r.nodes@[0].node_state == GameNodeState::NotExpanded,
            r.total_backups == 0,
            r.c_puct == UNIT,
    {
        let root = GameNode::new(0, root_game_state, GameNodeState::NotExpanded, None);
        let mut nodes: Vec<GameNode<G, N>> = Vec::new();
        nodes.push(root);
        let mut children: Vec<Vec<usize>> = Vec::new();
        children.push(Vec::new());
        MCTS { nodes, children, c_puct: UNIT, total_backups: 0 }
    }

    /// Walk the id path from the leaf back to the root, at each node
    /// crediting one visit and the current value, then flipping the value's
    /// sign: what is good for the mover at one depth is bad for the mover
    /// one ply up.
    pub fn backup(&mut self, node_chain: Vec<usize>, value: i64)
        requires
            old(self).wf(),
            -UNIT <= value <= UNIT,
            old(self).total_backups < MAX_VISITS,
            node_chain@.len() >= 1,
            forall|k: int| 0 <= k < node_chain@.len() ==> (#[trigger] node_chain@[k]) < old(
                self,
            ).nodes@.len(),
            forall|k: int, l: int|
                0 <= k < l < node_chain@.len() ==> node_chain@[k] < node_chain@[l],
        ensures
            final(self).wf(),
            final(self).nodes@.len() == old(self).nodes@.len(),
            final(self).children == old(self).children,
            final(self).c_puct == old(self).c_puct,
            final(self).total_backups == old(self).total_backups + 1,
            forall|i: int|
                0 <= i < old(self).nodes@.len() && (forall|k: int|
                    0 <= k < node_chain@.len() ==> node_chain@[k] != i)
                    ==> final(self).nodes@[i] == old(self).nodes@[i],
            forall|k: int|
                0 <= k < node_chain@.len()
                    ==> (#[trigger] final(self).nodes@[node_chain@[k] as int]) == (GameNode {
                    num_visits: (old(self).nodes@[node_chain@[k] as int].num_visits + 1) as u32,
                    total_value: (old(self).nodes@[node_chain@[k] as int].total_value + (if (
                        node_chain@.len() - 1 - k) % 2 == 0 {
                        value as int
                    } else {
                        -value as int
                    })) as i64,
                    action_value: action_value_spec(
                        old(self).nodes@[node_chain@[k] as int].total_value as int + (if (
                            node_chain@.len() - 1 - k) % 2 == 0 {
                            value as int
                        } else {
                            -value as int
                        }),
                        old(self).nodes@[node_chain@[k] as int].num_visits as int + 1,
                    ) as i64,
                    ..old(self).nodes@[node_chain@[k] as int]
                }),
            forall|i: int|
                0 <= i < old(self).nodes@.len()
                    ==> (#[trigger] final(self).nodes@[i]).num_visits >= old(
                    self,
                ).nodes@[i].num_visits,
    {
        let ghost orig = *self;
        let len = node_chain.len();
        let mut idx: usize = 0;
        let mut v: i64 = value;
        while idx < len
            invariant
                orig.wf(),
                len == node_chain@.len(),
                1 <= len,
                idx <= len,
                -UNIT <= value <= UNIT,
                orig.total_backups < MAX_VISITS,
                forall|k: int| 0 <= k < len ==> (#[trigger] node_chain@[k]) < orig.nodes@.len(),
                forall|k: int, l: int| 0 <= k < l < len ==> node_chain@[k] < node_chain@[l],
                v == if idx % 2 == 0 {
                    value as int
                } else {
                    -value as int
                },
                self.nodes@.len() == orig.nodes@.len(),
                self.children == orig.children,
                self.c_puct == orig.c_puct,
                self.total_backups == orig.total_backups,
                forall|i: int|
                    0 <= i < orig.nodes@.len() && (forall|k: int|
                        len - idx <= k < len ==> node_chain@[k] != i) ==> self.nodes@[i]
                        == orig.nodes@[i],
                forall|k: int|
                    len - idx <= k < len ==> (#[trigger] self.nodes@[node_chain@[k] as int])
                        == (GameNode {
                        num_visits: (orig.nodes@[node_chain@[k] as int].num_visits + 1) as u32,
                        total_value: (orig.nodes@[node_chain@[k] as int].total_value + (if (len
                            - 1 - k) % 2 == 0 {
                            value as int
                        } else {
                            -value as int
                        })) as i64,
                        action_value: action_value_spec(
                            orig.nodes@[node_chain@[k] as int].total_value as int + (if (len - 1
                                - k) % 2 == 0 {
                                value as int
                            } else {
                                -value as int
                            }),
                            orig.nodes@[node_chain@[k] as int].num_visits as int + 1,
                        ) as i64,
                        ..orig.nodes@[node_chain@[k] as int]
                    }),
            decreases len - idx,
        {
            let k = len - 1 - idx;
            let target = node_chain[k];
            let mut node = self.nodes[target];
            proof {
                // Positions processed so far lie strictly after `k`, so node
                // `target` still holds the statistics it had at entry.
                assert(forall|j: int|
                    len - idx <= j < len ==> node_chain@[j] > node_chain@[k as int]);
            }
            node.num_visits = node.num_visits + 1;
            node.total_value = node.total_value + v;
            proof {
                assert((node.num_visits as int) * UNIT == (node.num_visits as int - 1) * UNIT
                    + UNIT) by (nonlinear_arith);
            }
            node.update_action_value();
            self.nodes.set(target, node);
            v = -v;
            idx = idx + 1;
        }
        self.total_backups = self.total_backups + 1;
        proof {
            assert forall|i: int| 0 <= i < self.nodes@.len() implies (#[trigger] self.nodes@[i]).wf()
                && self.nodes@[i].num_visits <= self.total_backups && self.nodes@[i].game_state
                == orig.nodes@[i].game_state && self.nodes@[i].node_state
                == orig.nodes@[i].node_state && self.nodes@[i].previous_action
                == orig.nodes@[i].previous_action by {
                if forall|k: int| 0 <= k < len ==> node_chain@[k] != i {
                    assert(self.nodes@[i] == orig.nodes@[i]);
                } else {
                    let k = choose|k: int| 0 <= k < len && node_chain@[k] == i;
                    assert(self.nodes@[node_chain@[k] as int] == self.nodes@[i]);
                    let n = orig.nodes@[i].num_visits as int;
                    assert((n + 1) * UNIT == n * UNIT + UNIT) by (nonlinear_arith);
                    assert((-(n + 1)) * UNIT == (-n) * UNIT - UNIT) by (nonlinear_arith);
                }
            }
            assert forall|i: int|
                0 <= i < self.nodes@.len() && !self.expanded_live(i) implies self.children@[i]@.len()
                    == 0 by {
                assert(!orig.expanded_live(i));
            }
            assert forall|i: int|
                0 <= i < self.nodes@.len() && self.expanded_live(i) implies !(
                #[trigger] self.nodes@[i]).game_state.over_spec() by {
                assert(orig.expanded_live(i));
                assert(!orig.nodes@[i].game_state.over_spec());
            }
            assert forall|i: int|
                0 <= i < self.nodes@.len() && (#[trigger] self.nodes@[i]).node_state == (
                GameNodeState::Expanded { is_terminal: true }) implies self.nodes@[i].game_state.over_spec() by {
                assert(orig.nodes@[i].node_state == (GameNodeState::Expanded {
                    is_terminal: true,
                }));
                assert(orig.nodes@[i].game_state.over_spec());
            }
            assert forall|i: int|
                0 <= i < self.nodes@.len() && self.expanded_live(i) implies self.children_match(
                i,
            ) by {
                assert(orig.expanded_live(i));
                assert(orig.children_match(i));
                let moves = self.nodes@[i].game_state.moves_spec();
                assert(moves == orig.nodes@[i].game_state.moves_spec());
                assert forall|k: int|
                    0 <= k < moves.len() implies (#[trigger] self.nodes@[self.children@[i]@[k] as int]).previous_action
                        == Some(moves[k])
                        && self.nodes@[self.children@[i]@[k] as int].game_state
                        == self.nodes@[i].game_state.step_spec(moves[k]) by {
                    let c = self.children@[i]@[k] as int;
                    assert(0 <= c < self.nodes@.len());
                    assert(orig.nodes@[c].previous_action == Some(moves[k]));
                    assert(orig.nodes@[c].game_state == orig.nodes@[i].game_state.step_spec(
                        moves[k],
                    ));
                }
            }
        }
    }
}

/// Comparison of rationals with positive denominators is transitive:
/// `nl/dl <= nb/db` and `nb/db < nk/dk` give `nl/dl < nk/dk`.
pub proof fn lemma_ratio_trans(nl: int, dl: int, nb: int, db: int, nk: int, dk: int)
    requires
        dl > 0,
        db > 0,
        dk > 0,
        nl * db <= nb * dl,
        nb * dk < nk * db,
    ensures
        nl * dk < nk * dl,
{
    assert((nl * db) * dk <= (nb * dl) * dk) by (nonlinear_arith)
        requires
            dk > 0,
            nl * db <= nb * dl,
    ;
    assert((nb * dk) * dl < (nk * db) * dl) by (nonlinear_arith)
        requires
            dl > 0,
            nb * dk < nk * db,
    ;
    assert((nb * dl) * dk == (nb * dk) * dl) by (nonlinear_arith);
    assert((nl * db) * dk == (nl * dk) * db) by (nonlinear_arith);
    assert((nk * db) * dl == (nk * dl) * db) by (nonlinear_arith);
    assert((nl * dk) * db < (nk * dl) * db);
    assert(nl * dk < nk * dl) by (nonlinear_arith)
        requires
            db > 0,
            (nl * dk) * db < (nk * dl) * db,
    ;
}

impl<G: Game<N>, const N: usize> MCTS<G, N> {
    /// The numerator of the exact PUCT score of node `c`, scaled by
    /// `UNIT^3`: with `Q = W/N` and exploration
    /// `c_puct * P * sqrt(sum of sibling visits) / (1 + N)`, the score is
    /// `uct_num / uct_den`, where `s` stands for the fixed-point square root
    /// of the sibling visit sum.
    pub open spec fn uct_num(self, c: int, s: int) -> int {
        let node = self.nodes@[c];
        if node.num_visits == 0 {
            self.c_puct * node.prior_prob * s
        } else {
            node.total_value * UNIT * UNIT * (1 + node.num_visits as int) + self.c_puct
                * node.prior_prob * s * (node.num_visits as int)
        }
    }

    pub open spec fn uct_den(self, c: int) -> int {
        let node = self.nodes@[c];
        if node.num_visits == 0 {
            1
        } else {
            (node.num_visits as int) * (1 + node.num_visits as int)
        }
    }

    /// Node `a` scores at least node `b` under sibling square root `s`.
    pub open spec fn score_ge(self, a: int, b: int, s: int) -> bool {
        self.uct_num(a, s) * self.uct_den(b) >= self.uct_num(b, s) * self.uct_den(a)
    }

    /// `j` is the first child of `parent` with maximal score: strictly above
    /// every earlier sibling, at least as large as every later one.
    pub open spec fn first_best_child(self, parent: int, j: int, s: int) -> bool {
        let kids = self.children@[parent]@;
        &&& 0 <= j < kids.len()
        &&& forall|l: int| 0 <= l < j ==> !self.score_ge(kids[l] as int, kids[j] as int, s)
        &&& forall|l: int|
            j < l < kids.len() ==> self.score_ge(kids[j] as int, kids[l] as int, s)
    }

    /// The fixed-point square root of the visit sum of `parent`'s children.
    pub open spec fn sqrt_term(self, parent: int) -> int {
        sqrt_of(visit_sum(self.nodes@, self.children@[parent]@) * UNIT * UNIT)
    }

    /// Selection descends from `a` to `b` when `b` is the first best child.
    pub open spec fn selects_edge(self, a: int, b: int) -> bool {
        exists|j: int|
            #[trigger] self.first_best_child(a, j, self.sqrt_term(a)) && b == self.children@[a]@[j] as int
    }

    /// When every child of `parent` is unvisited, the PUCT score reduces to
    /// the exploration term and is driven purely by the prior probability:
    /// a child is the selected one exactly when it is the first child, in
    /// creation order, among those with maximal prior. `s` is the
    /// square-root factor of the score, taken positive.
    pub proof fn lemma_puct_prior_tiebreak(self, parent: int, j: int, s: int)
        requires
            self.wf(),
            0 <= parent < self.nodes@.len(),
            forall|k: int|
                0 <= k < self.children@[parent]@.len() ==> self.nodes@[#[trigger] self.children@[
                    parent
                ]@[k] as int].num_visits == 0,
            s > 0,
        ensures
            self.first_best_child(parent, j, s) <==> ({
                let kids = self.children@[parent]@;
                &&& 0 <= j < kids.len()
                &&& forall|l: int|
                    0 <= l < j ==> self.nodes@[#[trigger] kids[l] as int].prior_prob
                        < self.nodes@[kids[j] as int].prior_prob
                &&& forall|l: int|
                    j < l < kids.len() ==> self.nodes@[#[trigger] kids[l] as int].prior_prob
                        <= self.nodes@[kids[j] as int].prior_prob
            }),
    {
        let kids = self.children@[parent]@;
        assert forall|a: int, b: int|
            0 <= a < kids.len() && 0 <= b < kids.len() implies (#[trigger] self.score_ge(
            kids[a] as int,
            kids[b] as int,
            s,
        ) <==> self.nodes@[kids[a] as int].prior_prob >= self.nodes@[kids[b] as int].prior_prob) by {
            let pa = self.nodes@[kids[a] as int].prior_prob as int;
            let pb = self.nodes@[kids[b] as int].prior_prob as int;
            let c = self.c_puct as int;
            assert(self.uct_num(kids[a] as int, s) == c * pa * s);
            assert(self.uct_num(kids[b] as int, s) == c * pb * s);
            assert(self.uct_den(kids[a] as int) == 1);
            assert(self.uct_den(kids[b] as int) == 1);
            assert((c * pa * s >= c * pb * s) <==> pa >= pb) by (nonlinear_arith)
                requires
                    c > 0,
                    s > 0,
            ;
        }
        if self.first_best_child(parent, j, s) {
            assert forall|l: int| 0 <= l < j implies self.nodes@[#[trigger] kids[l] as int].prior_prob
                < self.nodes@[kids[j] as int].prior_prob by {
                assert(!self.score_ge(kids[l] as int, kids[j] as int, s));
            }
            assert forall|l: int|
                j < l < kids.len() implies self.nodes@[#[trigger] kids[l] as int].prior_prob
                <= self.nodes@[kids[j] as int].prior_prob by {
                assert(self.score_ge(kids[j] as int, kids[l] as int, s));
            }
        }
        if 0 <= j < kids.len() && (forall|l: int|
            0 <= l < j ==> self.nodes@[#[trigger] kids[l] as int].prior_prob
                < self.nodes@[kids[j] as int].prior_prob) && (forall|l: int|
            j < l < kids.len() ==> self.nodes@[#[trigger] kids[l] as int].prior_prob
                <= self.nodes@[kids[j] as int].prior_prob) {
            assert forall|l: int| 0 <= l < j implies !self.score_ge(
                kids[l] as int,
                kids[j] as int,
                s,
            ) by {
                assert(self.nodes@[kids[l] as int].prior_prob
                    < self.nodes@[kids[j] as int].prior_prob);
            }
            assert forall|l: int| j < l < kids.len() implies self.score_ge(
                kids[j] as int,
                kids[l] as int,
                s,
            ) by {
                assert(self.nodes@[kids[l] as int].prior_prob
                    <= self.nodes@[kids[j] as int].prior_prob);
            }
        }
    }

    /// Denominators of PUCT scores are positive.
    pub proof fn lemma_den_pos(self, c: int)
        requires
            self.wf(),
            0 <= c < self.nodes@.len(),
    ensures
            self.uct_den(c) >= 1,
    {
        let n = self.nodes@[c].num_visits as int;
        if n > 0 {
            assert(n * (1 + n) >= 1) by (nonlinear_arith)
                requires
                    n >= 1,
            ;
        }
    }

    fn node_live(st: &GameNodeState) -> (r: bool)
        ensures
            r == (*st == (GameNodeState::Expanded { is_terminal: false })),
    {
        match st {
            GameNodeState::Expanded { is_terminal } => !*is_terminal,
            GameNodeState::NotExpanded => false,
        }
    }

    /// The PUCT score of node `c` as an exact rational pair, with bounds
    /// small enough that cross-multiplying two scores fits an `i128`.
    fn score_parts(&self, c: usize, s: i64) -> (r: (i128, i128))
        requires
            self.wf(),
            c < self.nodes@.len(),
            0 <= s <= 4294967296i64,
        ensures
            r.0 == self.uct_num(c as int, s as int),
            r.1 == self.uct_den(c as int),
            1 <= r.1 < 1100000000000i128,
            -50000000000000000000000000i128 < r.0 < 50000000000000000000000000i128,
    {
        let node = self.nodes[c];
        let n = node.num_visits as i128;
        let w = node.total_value as i128;
        let p = node.prior_prob as i128;
        let cp = self.c_puct as i128;
        let sv = s as i128;
        let u = UNIT as i128;
        proof {
            assert(self.nodes@[c as int].wf());
            assert(-10000000000 <= w <= 10000000000) by (nonlinear_arith)
                requires
                    (-n) * 10000 <= w <= n * 10000,
                    0 <= n <= 1000000,
            ;
        }
        if node.num_visits == 0 {
            proof {
                assert(0 <= cp * p <= 10000000000i128) by (nonlinear_arith)
                    requires
                        0 < cp <= 1000000,
                        0 <= p <= 10000,
                ;
            }
            let b1 = cp * p;
            proof {
                assert(0 <= b1 * sv <= 43000000000000000000i128) by (nonlinear_arith)
                    requires
                        0 <= b1 <= 10000000000i128,
                        0 <= sv <= 4294967296i128,
                ;
            }
            let num = b1 * sv;
            (num, 1)
        } else {
            proof {
                assert(-100000000000000 <= w * u <= 100000000000000i128) by (nonlinear_arith)
                    requires
                        -10000000000 <= w <= 10000000000,
                        u == 10000,
                ;
            }
            let a1 = w * u;
            proof {
                assert(-1000000000000000000 <= a1 * u <= 1000000000000000000i128)
                    by (nonlinear_arith)
                    requires
                        -100000000000000 <= a1 <= 100000000000000i128,
                        u == 10000,
                ;
            }
            let a2 = a1 * u;
            proof {
                assert(-2000000000000000000000000 <= a2 * (1 + n)
                    <= 2000000000000000000000000i128) by (nonlinear_arith)
                    requires
                        -1000000000000000000 <= a2 <= 1000000000000000000i128,
                        1 <= 1 + n <= 1000001,
                ;
            }
            let a3 = a2 * (1 + n);
            proof {
                assert(0 <= cp * p <= 10000000000i128) by (nonlinear_arith)
                    requires
                        0 < cp <= 1000000,
                        0 <= p <= 10000,
                ;
            }
            let b1 = cp * p;
            proof {
                assert(0 <= b1 * sv <= 43000000000000000000i128) by (nonlinear_arith)
                    requires
                        0 <= b1 <= 10000000000i128,
                        0 <= sv <= 4294967296i128,
                ;
            }
            let b2 = b1 * sv;
            proof {
                assert(0 <= b2 * n <= 43000000000000000000000000i128) by (nonlinear_arith)
                    requires
                        0 <= b2 <= 43000000000000000000i128,
                        0 <= n <= 1000000,
                ;
            }
            let b3 = b2 * n;
            let num = a3 + b3;
            proof {
                assert(1 <= n * (1 + n) <= 1000001000000i128) by (nonlinear_arith)
                    requires
                        1 <= n <= 1000000,
                ;
            }
            let den = n * (1 + n);
            (num, den)
        }
    }

    /// Expand the node `leaf_node_id`, which must not have been expanded
    /// before. A terminal leaf is only marked: it yields `UNIT` (a win for
    /// the player who just moved into it) or 0 (a draw). Otherwise the
    /// evaluator is consulted, its prior is restricted to the legal moves
    /// and renormalized, one child is appended per legal move in enumeration
    /// order, and the evaluator's value estimate is returned.
    pub fn expand<A: Agent<G, N>>(&mut self, agent: &mut A, leaf_node_id: usize) -> (value: i64)
        requires
            old(self).wf(),
            leaf_node_id < old(self).nodes@.len(),
            old(self).nodes@[leaf_node_id as int].node_state == GameNodeState::NotExpanded || old(
                self,
            ).nodes@[leaf_node_id as int].game_state.over_spec(),
        ensures
            final(self).wf(),
            final(self).total_backups == old(self).total_backups,
            final(self).c_puct == old(self).c_puct,
            -UNIT <= value <= UNIT,
            final(self).nodes@.len() >= old(self).nodes@.len(),
            forall|i: int|
                0 <= i < old(self).nodes@.len() && i != leaf_node_id
                    ==> final(self).nodes@[i] == old(self).nodes@[i]
                    && final(self).children@[i] == old(self).children@[i],
            final(self).nodes@[leaf_node_id as int] == (GameNode {
                node_state: (GameNodeState::Expanded {
                    is_terminal: old(self).nodes@[leaf_node_id as int].game_state.over_spec(),
                }),
                ..old(self).nodes@[leaf_node_id as int]
            }),
            old(self).nodes@[leaf_node_id as int].game_state.over_spec() ==> final(self).nodes@
                =~= old(self).nodes@.update(
                leaf_node_id as int,
                final(self).nodes@[leaf_node_id as int],
            ) && final(self).children == old(self).children && value == (if old(
                self,
            ).nodes@[leaf_node_id as int].game_state.won_spec() {
                UNIT as int
            } else {
                0
            }),
            !old(self).nodes@[leaf_node_id as int].game_state.over_spec() ==> ({
                let moves = old(self).nodes@[leaf_node_id as int].game_state.moves_spec();
                let base = old(self).nodes@.len() as int;
                &&& final(self).nodes@.len() == base + moves.len()
                &&& final(self).children@[leaf_node_id as int]@.len() == moves.len()
                &&& forall|k: int|
                    0 <= k < moves.len() ==> #[trigger] final(self).children@[leaf_node_id as int]@[k] == base + k
                &&& forall|k: int|
                    0 <= k < moves.len() ==> (#[trigger] final(self).nodes@[base + k]).num_visits
                        == 0 && final(self).nodes@[base + k].total_value == 0 && final(self).nodes@[base + k].node_state == GameNodeState::NotExpanded && final(self).nodes@[base + k].previous_action == Some(moves[k]) && final(self).nodes@[base + k].game_state == old(
                        self,
                    ).nodes@[leaf_node_id as int].game_state.step_spec(moves[k]) && 0 <= final(self).nodes@[base + k].prior_prob <= UNIT
                &&& seq_sum(
                    Seq::new(moves.len(), |k: int| final(self).nodes@[base + k].prior_prob),
                ) == UNIT
            }),
    {
        let ghost orig = *self;
        let leaf_node = self.nodes[leaf_node_id];
        if leaf_node.is_terminal() {
            let mut node = leaf_node;
            node.node_state = GameNodeState::Expanded { is_terminal: true };
            self.nodes.set(leaf_node_id, node);
            let status = leaf_node.game_state.status();
            let value: i64 = match status {
                GameStatus::Won { .. } => UNIT,
                _ => 0,
            };
            proof {
                assert forall|i: int|
                    0 <= i < self.nodes@.len() && self.expanded_live(i) implies self.children_match(
                    i,
                ) && !(#[trigger] self.nodes@[i]).game_state.over_spec() by {
                    assert(i != leaf_node_id);
                    assert(orig.expanded_live(i));
                }
                assert forall|i: int|
                    0 <= i < self.nodes@.len() && !self.expanded_live(i) implies self.children@[i]@.len()
                        == 0 by {
                    if i != leaf_node_id {
                        assert(!orig.expanded_live(i));
                    } else {
                        assert(orig.children@[i]@.len() == 0 || orig.expanded_live(i));
                        if orig.expanded_live(i) {
                            assert(orig.nodes@[i].game_state.over_spec());
                            assert(false);
                        }
                    }
                }
                assert forall|i: int|
                    0 <= i < self.nodes@.len() && (#[trigger] self.nodes@[i]).node_state == (
                    GameNodeState::Expanded { is_terminal: true }) implies self.nodes@[i].game_state.over_spec() by {
                    if i != leaf_node_id {
                        assert(self.nodes@[i] == orig.nodes@[i]);
                    }
                }
                assert(self.nodes@ =~= orig.nodes@.update(
                    leaf_node_id as int,
                    self.nodes@[leaf_node_id as int],
                ));
            }
            value
        } else {
            let (raw_policy, value) = agent.eval_game(&leaf_node.game_state);
            let policy = raw_policy.mask_policy(&leaf_node.game_state);
            let ghost moves = leaf_node.game_state.moves_spec();
            proof {
                leaf_node.game_state.lemma_moves();
            }
            let m = policy.len();

            // Build one child per legal move, in enumeration order.
            let mut child_nodes: Vec<GameNode<G, N>> = Vec::new();
            let mut k: usize = 0;
            while k < m
                invariant
                    self.wf(),
                    *self == orig,
                    leaf_node == orig.nodes@[leaf_node_id as int],
                    leaf_node_id < orig.nodes@.len(),
                    policy.wf(),
                    policy.positions@ == moves,
                    moves == leaf_node.game_state.moves_spec(),
                    !leaf_node.game_state.over_spec(),
                    leaf_node.game_state.wf(),
                    m == moves.len(),
                    seq_sum(policy.probabilities@) == UNIT,
                    k <= m,
                    child_nodes@.len() == k,
                    forall|j: int|
                        0 <= j < k ==> (#[trigger] child_nodes@[j]) == (GameNode {
                            num_visits: 0u32,
                            prior_prob: policy.probabilities@[j],
                            total_value: 0i64,
                            action_value: 0i64,
                            game_state: leaf_node.game_state.step_spec(moves[j]),
                            node_state: GameNodeState::NotExpanded,
                            previous_action: Some(moves[j]),
                        }),
                    forall|j: int| 0 <= j < k ==> (#[trigger] child_nodes@[j]).wf(),
                decreases m - k,
            {
                let pos = policy.position_at(k);
                let prob = policy.probability_at(k);
                let mut child_state = leaf_node.game_state;
                proof {
                    assert(moves[k as int] == pos);
                    assert(moves.contains(pos));
                }
                let turn_result = child_state.take_turn(&pos);
                proof {
                    leaf_node.game_state.lemma_step(pos);
                }
                let child = GameNode::new(prob, child_state, GameNodeState::NotExpanded, Some(pos));
                child_nodes.push(child);
                k = k + 1;
            }

            // Commit: mark the leaf expanded, append the children, and wire
            // up the edges.
            let mut node = self.nodes[leaf_node_id];
            node.node_state = GameNodeState::Expanded { is_terminal: false };
            self.nodes.set(leaf_node_id, node);
            let base_len = self.nodes.len();
            let ghost mid = *self;
            let mut ids: Vec<usize> = Vec::new();
            let mut k: usize = 0;
            while k < m
                invariant
                    k <= m,
                    m == child_nodes@.len(),
                    leaf_node_id < base_len,
                    base_len == mid.nodes@.len(),
                    mid.nodes@.len() == mid.children@.len(),
                    self.nodes@.len() == base_len + k,
                    self.children@.len() == base_len + k,
                    self.c_puct == mid.c_puct,
                    self.total_backups == mid.total_backups,
                    forall|i: int| 0 <= i < base_len ==> self.nodes@[i] == mid.nodes@[i],
                    forall|i: int| 0 <= i < base_len ==> self.children@[i] == mid.children@[i],
                    forall|j: int|
                        0 <= j < k ==> (#[trigger] self.nodes@[base_len + j])
                            == child_nodes@[j],
                    forall|j: int|
                        0 <= j < k ==> (#[trigger] self.children@[base_len + j]@).len() == 0,
                    ids@.len() == k,
                    forall|j: int| 0 <= j < k ==> (#[trigger] ids@[j]) == base_len + j,
                decreases m - k,
            {
                ids.push(self.nodes.len());
                let child = child_nodes[k];
                self.nodes.push(child);
                self.children.push(Vec::new());
                k = k + 1;
            }
            self.children.set(leaf_node_id, ids);
            proof {
                let base = base_len as int;
                assert(mid.nodes@ == orig.nodes@.update(
                    leaf_node_id as int,
                    mid.nodes@[leaf_node_id as int],
                ));
                assert forall|i: int|
                    0 <= i < base && i != leaf_node_id implies mid.nodes@[i] == orig.nodes@[i]
                    && #[trigger] self.nodes@[i] == orig.nodes@[i] by {
                    assert(orig.nodes@.update(
                        leaf_node_id as int,
                        mid.nodes@[leaf_node_id as int],
                    )[i] == orig.nodes@[i]);
                }
                assert forall|i: int|
                    0 <= i < self.children@.len() && i != leaf_node_id && i < base implies (
                #[trigger] self.children@[i]) == orig.children@[i] by {
                    assert(mid.children@[i] == orig.children@[i]);
                }
                assert forall|i: int| 0 <= i < self.nodes@.len() implies (
                #[trigger] self.nodes@[i]).wf() && self.nodes@[i].num_visits
                    <= self.total_backups by {
                    if i < base {
                        if i == leaf_node_id {
                        } else {
                            assert(self.nodes@[i] == orig.nodes@[i]);
                        }
                    } else {
                        let j = i - base;
                        assert(self.nodes@[base_len as int + j] == child_nodes@[j]);
                    }
                }
                assert forall|i: int, k2: int|
                    0 <= i < self.children@.len() && 0 <= k2 < self.children@[i]@.len() implies i
                    < (#[trigger] self.children@[i]@[k2]) < self.nodes@.len() by {
                    if i == leaf_node_id {
                        assert(self.children@[i]@[k2] == base + k2);
                    } else if i < base {
                        assert(self.children@[i] == orig.children@[i]);
                    } else {
                        let j = i - base;
                        assert(self.children@[base_len as int + j]@.len() == 0);
                    }
                }
                assert forall|i: int|
                    0 <= i < self.nodes@.len() && !self.expanded_live(i) implies self.children@[i]@.len()
                        == 0 by {
                    if i == leaf_node_id {
                        assert(self.nodes@[i] == mid.nodes@[i]);
                        assert(self.expanded_live(i));
                    } else if i < base {
                        assert(!orig.expanded_live(i));
                        assert(self.children@[i] == orig.children@[i]);
                    } else {
                        let j = i - base;
                        assert(self.children@[base_len as int + j]@.len() == 0);
                    }
                }
                assert forall|i: int|
                    0 <= i < self.nodes@.len() && self.expanded_live(i) implies self.children_match(
                    i,
                ) && !(#[trigger] self.nodes@[i]).game_state.over_spec() by {
                    if i == leaf_node_id {
                        assert(self.children@[i]@.len() == moves.len());
                        assert forall|k2: int| 0 <= k2 < moves.len() implies (
                        #[trigger] self.nodes@[self.children@[i]@[k2] as int]).previous_action
                            == Some(moves[k2])
                            && self.nodes@[self.children@[i]@[k2] as int].game_state
                            == self.nodes@[i].game_state.step_spec(moves[k2]) by {
                            assert(self.children@[i]@[k2] == base + k2);
                            assert(self.nodes@[base + k2] == child_nodes@[k2]);
                        }
                    } else if i < base {
                        assert(self.nodes@[i] == orig.nodes@[i]);
                        assert(self.children@[i] == orig.children@[i]);
                        assert(orig.expanded_live(i));
                        assert(orig.children_match(i));
                    } else {
                        let j = i - base;
                        assert(self.nodes@[base_len as int + j] == child_nodes@[j]);
                        assert(!self.expanded_live(i));
                    }
                }
                assert forall|i: int|
                    0 <= i < self.nodes@.len() && (#[trigger] self.nodes@[i]).node_state == (
                    GameNodeState::Expanded { is_terminal: true }) implies self.nodes@[i].game_state.over_spec() by {
                    if i == leaf_node_id {
                        assert(self.nodes@[i] == mid.nodes@[i]);
                    } else if i < base {
                        assert(self.nodes@[i] == orig.nodes@[i]);
                    } else {
                        let j = i - base;
                        assert(self.nodes@[base_len as int + j] == child_nodes@[j]);
                    }
                }
                assert(Seq::new(moves.len(), |k: int| self.nodes@[base + k].prior_prob)
                    =~= policy.probabilities@);
            }
            value
        }
    }

    /// Descend from the root: at each expanded, non-terminal node compute
    /// every child's PUCT score and step to the maximum (the first among
    /// ties), stopping at a node that awaits expansion or is terminal. The
    /// full id path from the root to that node is returned.
    pub fn select(&self) -> (r: Vec<usize>)
        requires
            self.wf(),
        ensures
            r@.len() >= 1,
            r@[0] == 0,
            forall|k: int| 0 <= k < r@.len() ==> (#[trigger] r@[k]) < self.nodes@.len(),
            forall|k: int, l: int| 0 <= k < l < r@.len() ==> r@[k] < r@[l],
            forall|k: int|
                0 <= k < r@.len() - 1 ==> self.expanded_live(#[trigger] r@[k] as int)
                    && self.selects_edge(r@[k] as int, r@[k + 1] as int),
            !self.expanded_live(r@[r@.len() - 1] as int),
    {
        let mut node_chain: Vec<usize> = Vec::new();
        let mut base: usize = 0;
        node_chain.push(0);
        let mut live = Self::node_live(&self.nodes[0].node_state);
        while live
            invariant
                self.wf(),
                base < self.nodes@.len(),
                node_chain@.len() >= 1,
                node_chain@[0] == 0,
                node_chain@[node_chain@.len() - 1] == base,
                live == self.expanded_live(base as int),
                forall|k: int|
                    0 <= k < node_chain@.len() ==> (#[trigger] node_chain@[k])
                        < self.nodes@.len(),
                forall|k: int, l: int|
                    0 <= k < l < node_chain@.len() ==> node_chain@[k] < node_chain@[l],
                forall|k: int|
                    0 <= k < node_chain@.len() - 1 ==> self.expanded_live(
                        #[trigger] node_chain@[k] as int,
                    ) && self.selects_edge(node_chain@[k] as int, node_chain@[k + 1] as int),
            decreases self.nodes@.len() - base,
        {
            let ghost kids_seq = self.children@[base as int]@;
            let kids = &self.children[base];
            let num_children = kids.len();
            proof {
                assert(self.children_match(base as int));
                self.nodes@[base as int].game_state.lemma_moves();
            }

            // The square root of the total sibling visits, in fixed point.
            let mut sum_n: u64 = 0;
            let mut k: usize = 0;
            while k < num_children
                invariant
                    self.wf(),
                    base < self.nodes@.len(),
                    kids_seq == self.children@[base as int]@,
                    kids@ == kids_seq,
                    num_children == kids_seq.len(),
                    num_children <= 100_000,
                    k <= num_children,
                    sum_n as int == visit_sum(self.nodes@, kids_seq.take(k as int)),
                    sum_n <= (k as u64) * (MAX_VISITS as u64),
                decreases num_children - k,
            {
                let child = kids[k];
                proof {
                    assert(kids_seq.take(k as int + 1).drop_last() =~= kids_seq.take(k as int));
                    assert(kids_seq.take(k as int + 1).last() == kids_seq[k as int]);
                    assert((k as int) * (MAX_VISITS as int) + MAX_VISITS as int == (k as int + 1)
                        * (MAX_VISITS as int)) by (nonlinear_arith);
                    assert((k as int + 1) * (MAX_VISITS as int) <= 100_000 * (MAX_VISITS as int))
                        by (nonlinear_arith)
                        requires
                            k as int + 1 <= 100_000,
                    ;
                }
                sum_n = sum_n + (self.nodes[child].num_visits as u64);
                k = k + 1;
            }
            proof {
                assert(kids_seq.take(num_children as int) =~= kids_seq);
                assert((num_children as int) * (MAX_VISITS as int) <= 100_000 * (
                MAX_VISITS as int)) by (nonlinear_arith)
                    requires
                        num_children <= 100_000,
                ;
                assert((sum_n as int) * 100000000 < 18446744073709551616) by (nonlinear_arith)
                    requires
                        0 <= sum_n as int <= 100_000 * (MAX_VISITS as int),
                ;
            }
            let x = (sum_n as u128) * 100000000u128;
            let sq = isqrt(x);
            let s = sq as i64;
            proof {
                assert(x as int == visit_sum(self.nodes@, kids_seq) * UNIT * UNIT)
                    by (nonlinear_arith)
                    requires
                        x as int == (sum_n as int) * 100000000,
                        sum_n as int == visit_sum(self.nodes@, kids_seq),
                        UNIT == 10000,
                ;
                assert(s as int == self.sqrt_term(base as int));
            }

            // First pass winner: the first child with the maximal score.
            let first_id = kids[0];
            let parts = self.score_parts(first_id, s);
            let mut best_num = parts.0;
            let mut best_den = parts.1;
            let mut best_idx: usize = 0;
            let mut j: usize = 1;
            while j < num_children
                invariant
                    self.wf(),
                    base < self.nodes@.len(),
                    kids_seq == self.children@[base as int]@,
                    kids@ == kids_seq,
                    num_children == kids_seq.len(),
                    0 < num_children,
                    best_idx < j <= num_children,
                    0 <= s <= 4294967296i64,
                    s as int == self.sqrt_term(base as int),
                    best_num == self.uct_num(kids_seq[best_idx as int] as int, s as int),
                    best_den == self.uct_den(kids_seq[best_idx as int] as int),
                    1 <= best_den < 1100000000000i128,
                    -50000000000000000000000000i128 < best_num < 50000000000000000000000000i128,
                    forall|l: int|
                        0 <= l < best_idx ==> !self.score_ge(
                            kids_seq[l] as int,
                            kids_seq[best_idx as int] as int,
                            s as int,
                        ),
                    forall|l: int|
                        best_idx < l < j ==> self.score_ge(
                            kids_seq[best_idx as int] as int,
                            kids_seq[l] as int,
                            s as int,
                        ),
                decreases num_children - j,
            {
                let cand_id = kids[j];
                let cand = self.score_parts(cand_id, s);
                let num = cand.0;
                let den = cand.1;
                proof {
                    assert(-60000000000000000000000000000000000000 < num * best_den
                        < 60000000000000000000000000000000000000i128) by (nonlinear_arith)
                        requires
                            -50000000000000000000000000i128 < num
                                < 50000000000000000000000000i128,
                            1 <= best_den < 1100000000000i128,
                    ;
                    assert(-60000000000000000000000000000000000000 < best_num * den
                        < 60000000000000000000000000000000000000i128) by (nonlinear_arith)
                        requires
                            -50000000000000000000000000i128 < best_num
                                < 50000000000000000000000000i128,
                            1 <= den < 1100000000000i128,
                    ;
                }
                if num * best_den > best_num * den {
                    proof {
                        let b = kids_seq[best_idx as int] as int;
                        let cnew = kids_seq[j as int] as int;
                        assert forall|l: int| 0 <= l < j implies !self.score_ge(
                            kids_seq[l] as int,
                            cnew,
                            s as int,
                        ) by {
                            let cl = kids_seq[l] as int;
                            self.lemma_den_pos(cl);
                            self.lemma_den_pos(b);
                            self.lemma_den_pos(cnew);
                            if l < best_idx {
                                lemma_ratio_trans(
                                    self.uct_num(cl, s as int),
                                    self.uct_den(cl),
                                    self.uct_num(b, s as int),
                                    self.uct_den(b),
                                    self.uct_num(cnew, s as int),
                                    self.uct_den(cnew),
                                );
                            } else if l == best_idx {
                            } else {
                                lemma_ratio_trans(
                                    self.uct_num(cl, s as int),
                                    self.uct_den(cl),
                                    self.uct_num(b, s as int),
                                    self.uct_den(b),
                                    self.uct_num(cnew, s as int),
                                    self.uct_den(cnew),
                                );
                            }
                        }
                    }
                    best_idx = j;
                    best_num = num;
                    best_den = den;
                }
                j = j + 1;
            }
            let next = kids[best_idx];
            proof {
                assert(self.first_best_child(base as int, best_idx as int, s as int));
                assert(self.selects_edge(base as int, next as int));
                assert(base < next);
                assert(forall|k: int|
                    0 <= k < node_chain@.len() ==> (#[trigger] node_chain@[k]) <= base);
            }
            node_chain.push(next);
            base = next;
            live = Self::node_live(&self.nodes[base].node_state);
        }
        node_chain
    }

    /// Among the root's children pick the one with the most visits (the
    /// first among ties), and build the visit-count policy over the whole
    /// action space: the entry of each explored move is its child's visit
    /// count normalized by the total of all children's visits; every other
    /// entry is zero. This vector is the training target, distinct from any
    /// child's prior.
    /// Child index `j` of the root is the first with maximal visit count:
    /// strictly above every earlier sibling, at least every later one.
    pub open spec fn first_max_visits(self, j: int) -> bool {
        let kids = self.children@[0]@;
        &&& 0 <= j < kids.len()
        &&& forall|l: int|
            0 <= l < j ==> (self.nodes@[#[trigger] kids[l] as int].num_visits as int)
                < self.nodes@[kids[j] as int].num_visits as int
        &&& forall|l: int|
            j < l < kids.len() ==> (self.nodes@[#[trigger] kids[l] as int].num_visits as int)
                <= self.nodes@[kids[j] as int].num_visits as int
    }

    /// `id` is the node id of the first most-visited child of the root.
    pub open spec fn is_first_max_child_id(self, id: int) -> bool {
        exists|j: int| #[trigger] self.first_max_visits(j) && id == self.children@[0]@[j] as int
    }

    /// `entries` is the visit-count policy of the root: the entry of the
    /// move that created child `k` is that child's visit count normalized
    /// by the total of all the children's visits, and every action index
    /// that no legal move carries is zero.
    pub open spec fn visit_policy_ok(self, entries: Seq<i64>) -> bool {
        let kids = self.children@[0]@;
        let moves = self.nodes@[0].game_state.moves_spec();
        let total = visit_sum(self.nodes@, kids);
        &&& forall|k: int|
            0 <= k < moves.len() ==> #[trigger] entries[moves[k].index_spec()] == (self.nodes@[
                kids[k] as int
            ].num_visits as int) * UNIT / total
        &&& forall|a: int|
            0 <= a < N && (forall|k: int|
                0 <= k < moves.len() ==> (#[trigger] moves[k].index_spec()) != a) ==> entries[a]
                == 0
    }

    /// The index (among the root's children) of the first child with the
    /// most visits.
    fn best_child_of_root(&self) -> (b: usize)
        requires
            self.wf(),
            self.expanded_live(0),
            self.children@[0]@.len() > 0,
        ensures
            self.first_max_visits(b as int),
    {
        let ghost kids_seq = self.children@[0]@;
        let kids = &self.children[0];
        let m = kids.len();
        let mut best_idx: usize = 0;
        let mut best_n: u32 = self.nodes[kids[0]].num_visits;
        let mut k: usize = 1;
        while k < m
            invariant
                self.wf(),
                kids_seq == self.children@[0]@,
                kids@ == kids_seq,
                m == kids_seq.len(),
                0 < m,
                1 <= k <= m,
                best_idx < k,
                best_n == self.nodes@[kids_seq[best_idx as int] as int].num_visits,
                forall|l: int|
                    0 <= l < best_idx ==> (self.nodes@[
                    #[trigger] kids_seq[l] as int].num_visits as int) < best_n as int,
                forall|l: int|
                    best_idx < l < k ==> (self.nodes@[
                    #[trigger] kids_seq[l] as int].num_visits as int) <= best_n as int,
            decreases m - k,
        {
            let cid = kids[k];
            let node_n = self.nodes[cid].num_visits;
            if node_n > best_n {
                best_idx = k;
                best_n = node_n;
            }
            k = k + 1;
        }
        best_idx
    }

    /// The visit-count policy over the whole action space: each explored
    /// move's entry is its child's visit count normalized by `total_u`, the
    /// total of all the children's visits; all other entries are zero.
    fn visit_count_policy(&self, total_u: u64) -> (entries: Vec<i64>)
        requires
            self.wf(),
            self.expanded_live(0),
            total_u as int == visit_sum(self.nodes@, self.children@[0]@),
            total_u >= 1,
        ensures
            entries@.len() == N,
            forall|a: int| 0 <= a < N ==> 0 <= #[trigger] entries@[a] <= UNIT,
            self.visit_policy_ok(entries@),
    {
        let ghost kids_seq = self.children@[0]@;
        let ghost moves = self.nodes@[0].game_state.moves_spec();
        let kids = &self.children[0];
        let m = kids.len();
        proof {
            assert(self.children_match(0));
            self.nodes@[0].game_state.lemma_moves();
            lemma_visit_sum_bounds(self.nodes@, kids_seq);
            assert(kids_seq.len() * (MAX_VISITS as int) <= 100_000 * (MAX_VISITS as int))
                by (nonlinear_arith)
                requires
                    kids_seq.len() <= 100_000,
            ;
        }

        let mut entries: Vec<i64> = Vec::new();
        let mut i: usize = 0;
        while i < N
            invariant
                i <= N,
                entries@.len() == i,
                forall|a: int| 0 <= a < i ==> #[trigger] entries@[a] == 0,
            decreases N - i,
        {
            entries.push(0);
            i = i + 1;
        }

        let mut k: usize = 0;
        while k < m
            invariant
                self.wf(),
                self.expanded_live(0),
                kids_seq == self.children@[0]@,
                kids@ == kids_seq,
                m == kids_seq.len(),
                moves == self.nodes@[0].game_state.moves_spec(),
                m == moves.len(),
                forall|j: int|
                    0 <= j < moves.len() ==> (#[trigger] moves[j]).valid_spec() && 0 <= moves[
                        j
                    ].index_spec() < N,
                forall|j: int, l: int|
                    0 <= j < l < moves.len() ==> moves[j].index_spec() != moves[l].index_spec(),
                total_u as int == visit_sum(self.nodes@, kids_seq),
                1 <= total_u as int <= 100_000 * (MAX_VISITS as int),
                k <= m,
                entries@.len() == N,
                forall|j: int|
                    0 <= j < k ==> #[trigger] entries@[moves[j].index_spec()] == (self.nodes@[
                        kids_seq[j] as int
                    ].num_visits as int) * UNIT / (total_u as int),
                forall|a: int|
                    0 <= a < N && (forall|j: int|
                        0 <= j < k ==> (#[trigger] moves[j].index_spec()) != a)
                        ==> entries@[a] == 0,
                forall|a: int| 0 <= a < N ==> 0 <= #[trigger] entries@[a] <= UNIT,
            decreases m - k,
        {
            let cid = kids[k];
            let node = self.nodes[cid];
            let pos = node.previous_action.unwrap();
            proof {
                assert(pos == moves[k as int]);
            }
            let idx = pos.to_index();
            proof {
                lemma_visit_sum_element(self.nodes@, kids_seq, k as int);
                let n = node.num_visits as int;
                let t = total_u as int;
                assert(0 <= n * UNIT <= 10000000000) by (nonlinear_arith)
                    requires
                        0 <= n <= 1000000,
                ;
                lemma_div_is_ordered(0, n * UNIT, t);
                assert(n * UNIT <= t * UNIT) by (nonlinear_arith)
                    requires
                        n <= t,
                        UNIT > 0,
                ;
                lemma_div_is_ordered(n * UNIT, t * UNIT, t);
                lemma_div_multiples_vanish(UNIT as int, t);
                assert(t * UNIT == UNIT * t) by (nonlinear_arith);
            }
            let q_u = (node.num_visits as u64) * (UNIT as u64) / total_u;
            let q = q_u as i64;
            entries.set(idx, q);
            k = k + 1;
        }
        entries
    }

    /// Among the root's children pick the one with the most visits (the
    /// first among ties), and build the visit-count policy over the full
    /// action space, one entry per explored child equal to its visit count
    /// normalized by the children's total. This vector is the training
    /// target, distinct from any child's prior.
    #[verifier::rlimit(100)]
    pub fn select_best_child(&self) -> (r: (usize, RawPolicy<N>))
        requires
            self.wf(),
            self.expanded_live(0),
            visit_sum(self.nodes@, self.children@[0]@) >= 1,
        ensures
            r.0 < self.nodes@.len(),
            self.is_first_max_child_id(r.0 as int),
            r.1.wf(),
            self.visit_policy_ok(r.1.view_spec()),
    {
        let ghost kids_seq = self.children@[0]@;
        let kids = &self.children[0];
        let m = kids.len();
        proof {
            assert(self.children_match(0));
            self.nodes@[0].game_state.lemma_moves();
        }

        // The total of the children's visit counts.
        let mut total_u: u64 = 0;
        let mut k: usize = 0;
        while k < m
            invariant
                self.wf(),
                kids_seq == self.children@[0]@,
                kids@ == kids_seq,
                m == kids_seq.len(),
                m <= 100_000,
                k <= m,
                total_u as int == visit_sum(self.nodes@, kids_seq.take(k as int)),
                total_u <= (k as u64) * (MAX_VISITS as u64),
            decreases m - k,
        {
            let child = kids[k];
            proof {
                assert(kids_seq.take(k as int + 1).drop_last() =~= kids_seq.take(k as int));
                assert(kids_seq.take(k as int + 1).last() == kids_seq[k as int]);
                assert((k as int) * (MAX_VISITS as int) + MAX_VISITS as int == (k as int + 1) * (
                MAX_VISITS as int)) by (nonlinear_arith);
                assert((k as int + 1) * (MAX_VISITS as int) <= 100_000 * (MAX_VISITS as int))
                    by (nonlinear_arith)
                    requires
                        k as int + 1 <= 100_000,
                ;
            }
            total_u = total_u + (self.nodes[child].num_visits as u64);
            k = k + 1;
        }
        proof {
            assert(kids_seq.take(m as int) =~= kids_seq);
        }

        let best_idx = self.best_child_of_root();
        let best_id = kids[best_idx];
        let entries = self.visit_count_policy(total_u);
        let raw = RawPolicy::new(entries);
        proof {
            assert(self.first_max_visits(best_idx as int));
            assert(best_id == self.children@[0]@[best_idx as int]);
            assert(self.is_first_max_child_id(best_id as int));
        }
        (best_id, raw)
    }

    /// Run the fixed budget of search iterations on a fresh tree: select a
    /// path, expand its leaf, and back the value up, `search_steps` times.
    /// Afterwards the root is expanded and at least one of its children has
    /// been visited, so the best child is well defined.
    pub fn run_search<A: Agent<G, N>>(&mut self, agent: &mut A, search_steps: u32)
        requires
            old(self).wf(),
            old(self).total_backups == 0,
            old(self).nodes@.len() == 1,
            old(self).nodes@[0].node_state == GameNodeState::NotExpanded,
            !old(self).nodes@[0].game_state.over_spec(),
            2 <= search_steps <= MAX_VISITS,
        ensures
            final(self).wf(),
            final(self).expanded_live(0),
            final(self).nodes@[0].game_state == old(self).nodes@[0].game_state,
            visit_sum(final(self).nodes@, final(self).children@[0]@) >= 1,
            final(self).total_backups == search_steps,
            final(self).c_puct == old(self).c_puct,
    {
        let ghost orig = *self;
        let mut it: u32 = 0;
        while it < search_steps
            invariant
                self.wf(),
                self.nodes@.len() >= 1,
                self.nodes@[0].game_state == orig.nodes@[0].game_state,
                !self.nodes@[0].game_state.over_spec(),
                self.c_puct == orig.c_puct,
                self.total_backups == it,
                it <= search_steps,
                search_steps <= MAX_VISITS,
                it == 0 ==> self.nodes@[0].node_state == GameNodeState::NotExpanded,
                it >= 1 ==> self.expanded_live(0),
                it >= 2 ==> visit_sum(self.nodes@, self.children@[0]@) >= 1,
            decreases search_steps - it,
        {
            let ghost pre = *self;
            let node_chain = self.select();
            let leaf = node_chain[node_chain.len() - 1];
            proof {
                if self.nodes@[leaf as int].node_state != GameNodeState::NotExpanded {
                    assert(!self.expanded_live(leaf as int));
                    assert(self.nodes@[leaf as int].node_state == (GameNodeState::Expanded {
                        is_terminal: true,
                    }));
                }
                if it >= 1 {
                    assert(self.expanded_live(0));
                    assert(node_chain@.len() >= 2) by {
                        if node_chain@.len() == 1 {
                            assert(!self.expanded_live(node_chain@[0] as int));
                        }
                    }
                }
            }
            let ghost chain = node_chain@;
            proof {
                if it >= 1 {
                    // The root is expanded and live, the leaf is not, so the
                    // leaf is a deeper node and the root's edges survive the
                    // expansion untouched.
                    assert(leaf != 0);
                }
            }
            let value = self.expand(agent, leaf);
            self.backup(node_chain, value);
            proof {
                if it >= 1 {
                    // The path's second node is a root child; its new visit
                    // count makes the root children's visit sum positive.
                    let kids = self.children@[0]@;
                    assert(pre.selects_edge(chain[0] as int, chain[1] as int));
                    let j = choose|j: int|
                        pre.first_best_child(chain[0] as int, j, pre.sqrt_term(chain[0] as int))
                            && chain[1] as int == pre.children@[chain[0] as int]@[j] as int;
                    assert(pre.children@[0]@[j] == chain[1]);
                    assert(kids == pre.children@[0]@);
                    assert(self.nodes@[chain[1] as int].num_visits >= 1);
                    lemma_visit_sum_element(self.nodes@, kids, j);
                }
            }
            it = it + 1;
        }
    }
}

} // verus!
