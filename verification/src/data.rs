//! The replay buffer: three parallel, always-equal-length sequences of game
//! states, outcome values, and visit-count policies, grown by whole games
//! and expanded in place by symmetry augmentation.

use vstd::prelude::*;
use crate::game::Game;
use crate::policy::RawPolicy;

verus! {

/// Training examples from finished self-play games. The three sequences are
/// always the same length: entry `i` is one labeled example.
pub struct ReplayBuffer<G: Game<N>, const N: usize> {
    pub games: Vec<G>,
    pub values: Vec<i64>,
    pub policies: Vec<RawPolicy<N>>,
}

impl<G: Game<N>, const N: usize> ReplayBuffer<G, N> {
    /// The buffer's invariant: the three parallel sequences have identical
    /// length, and every stored policy is well formed.
    pub open spec fn wf(self) -> bool {
        &&& self.games@.len() == self.values@.len()
        &&& self.values@.len() == self.policies@.len()
        &&& forall|i: int| 0 <= i < self.policies@.len() ==> (#[trigger] self.policies@[i]).wf()
    }

    /// Build a buffer from three sequences of equal length; handing in
    /// mismatched lengths is a contract violation, so it is excluded here.
    pub fn new(games: Vec<G>, values: Vec<i64>, policies: Vec<RawPolicy<N>>) -> (r: Self)
        requires
            games@.len() == values@.len(),
            values@.len() == policies@.len(),
            forall|i: int| 0 <= i < policies@.len() ==> (#[trigger] policies@[i]).wf(),
        ensures
            r.wf(),
            r.games@ == games@,
            r.values@ == values@,
            r.policies@ == policies@,
    {
        ReplayBuffer { games, values, policies }
    }

    pub fn len(&self) -> (r: usize)
        ensures
            r == self.games@.len(),
    {
        self.games.len()
    }

    /// The example at index `i`, as a (state, value, policy) triple.
    pub fn item(&self, i: usize) -> (r: (G, i64, &RawPolicy<N>))
        requires
            self.wf(),
            i < self.games@.len(),
        ensures
            r.0 == self.games@[i as int],
            r.1 == self.values@[i as int],
            *r.2 == self.policies@[i as int],
    {
        (self.games[i], self.values[i], &self.policies[i])
    }

    /// Append a finished game's examples, draining the given vectors. The
    /// three batches must have equal length; a mismatch is a contract
    /// violation and is excluded here.
    pub fn append(
        &mut self,
        games: &mut Vec<G>,
        values: &mut Vec<i64>,
        policies: &mut Vec<RawPolicy<N>>,
    )
        requires
            old(self).wf(),
            old(games)@.len() == old(values)@.len(),
            old(values)@.len() == old(policies)@.len(),
            forall|i: int|
                0 <= i < old(policies)@.len() ==> (#[trigger] old(policies)@[i]).wf(),
        ensures
            final(self).wf(),
            final(self).games@ == old(self).games@ + old(games)@,
            final(self).values@ == old(self).values@ + old(values)@,
            final(self).policies@ == old(self).policies@ + old(policies)@,
            final(games)@.len() == 0,
            final(values)@.len() == 0,
            final(policies)@.len() == 0,
    {
        self.games.append(games);
        self.values.append(values);
        self.policies.append(policies);
    }

    /// Expand the buffer in place: for each of the examples already stored,
    /// append its eight symmetry variants (state and policy transformed in
    /// step, the value unchanged).
    pub fn augment(&mut self)
        requires
            old(self).wf(),
            forall|i: int| 0 <= i < old(self).games@.len() ==> (#[trigger] old(self).games@[i]).wf(),
            old(self).games@.len() <= 1000000,
        ensures
            final(self).wf(),
            final(self).games@.len() == 9 * old(self).games@.len(),
            forall|i: int|
                0 <= i < old(self).games@.len() ==> #[trigger] final(self).games@[i] == old(
                    self,
                ).games@[i],
            forall|i: int|
                0 <= i < old(self).games@.len() ==> #[trigger] final(self).values@[i] == old(
                    self,
                ).values@[i],
            forall|i: int|
                0 <= i < old(self).games@.len() ==> #[trigger] final(self).policies@[i] == old(
                    self,
                ).policies@[i],
            forall|i: int, t: int|
                0 <= i < old(self).games@.len() && 0 <= t < 8 ==> #[trigger] final(self).values@[old(self).games@.len() + 8 * i + t] == old(self).values@[i],
    {
        let ghost orig = *self;
        let original_len = self.games.len();
        let mut i: usize = 0;
        while i < original_len
            invariant
                self.wf(),
                original_len == orig.games@.len(),
                original_len <= 1000000,
                i <= original_len,
                forall|j: int| 0 <= j < original_len ==> (#[trigger] orig.games@[j]).wf(),
                self.games@.len() == original_len + 8 * i,
                forall|j: int| 0 <= j < original_len ==> #[trigger] self.games@[j] == orig.games@[j],
                forall|j: int|
                    0 <= j < original_len ==> #[trigger] self.values@[j] == orig.values@[j],
                forall|j: int|
                    0 <= j < original_len ==> #[trigger] self.policies@[j] == orig.policies@[j],
                forall|j: int, t: int|
                    0 <= j < i && 0 <= t < 8 ==> #[trigger] self.values@[original_len + 8 * j + t]
                        == orig.values@[j],
            decreases original_len - i,
        {
            let game = self.games[i];
            let value = self.values[i];
            let policy = self.policies[i].clone();
            proof {
                assert(self.games@[i as int] == orig.games@[i as int]);
                assert(orig.games@[i as int].wf());
                assert(self.policies@[i as int].wf());
                assert(policy.wf());
            }
            let ghost pre = *self;
            let (mut aug_games, mut aug_policies) = game.augmented_with_raw_policy(&policy);
            let mut aug_values: Vec<i64> = Vec::new();
            let mut k: usize = 0;
            while k < 8
                invariant
                    k <= 8,
                    aug_values@.len() == k,
                    forall|j: int| 0 <= j < k ==> #[trigger] aug_values@[j] == value,
                decreases 8 - k,
            {
                aug_values.push(value);
                k = k + 1;
            }
            let ghost av = aug_values@;
            self.append(&mut aug_games, &mut aug_values, &mut aug_policies);
            proof {
                assert forall|j: int| 0 <= j < original_len implies #[trigger] self.games@[j]
                    == orig.games@[j] by {
                    assert(self.games@[j] == pre.games@[j]);
                }
                assert forall|j: int| 0 <= j < original_len implies #[trigger] self.values@[j]
                    == orig.values@[j] by {
                    assert(self.values@[j] == pre.values@[j]);
                }
                assert forall|j: int| 0 <= j < original_len implies #[trigger] self.policies@[j]
                    == orig.policies@[j] by {
                    assert(self.policies@[j] == pre.policies@[j]);
                }
                assert forall|j: int, t: int|
                    0 <= j < i + 1 && 0 <= t < 8 implies #[trigger] self.values@[original_len + 8
                    * j + t] == orig.values@[j] by {
                    if j < i {
                        assert(self.values@[original_len + 8 * j + t] == pre.values@[original_len
                            + 8 * j + t]);
                    } else {
                        assert(self.values@[original_len + 8 * i + t] == av[t]);
                    }
                }
            }
            i = i + 1;
        }
    }
}

impl<G: Game<N>, const N: usize> Default for ReplayBuffer<G, N> {
    /// An empty buffer.
    fn default() -> (r: Self)
        ensures
            r.wf(),
            r.games@.len() == 0,
    {
        ReplayBuffer { games: Vec::new(), values: Vec::new(), policies: Vec::new() }
    }
}

} // verus!
