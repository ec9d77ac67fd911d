//! Probabilistic automata over discrete states, and their Viterbi score.
//!
//! A model holds transition, start and stop mass as whole numbers together
//! with the totals that normalise them: the probability of a transition is
//! its mass divided by the total of its row. Scoring works on logarithms of
//! probabilities, given as fixed-point numbers.

use crate::numerics::{add_cost, cap, sum, sum_upto, INFINITY};
use crate::spectrogram::lemma_product_bounds;
use vstd::arithmetic::div_mod::lemma_fundamental_div_mod_converse;
use vstd::prelude::*;

verus! {

/// The logarithm of probability zero.
pub const NEG_INFINITY: i64 = i64::MIN;

/// Exact sum of the first `upto` entries of row `i` of a square table.
pub open spec fn row_mass(trans: Seq<u64>, n: int, i: int, upto: int) -> nat
    decreases upto,
{
    if upto <= 0 {
        0
    } else {
        row_mass(trans, n, i, upto - 1) + trans[i * n + (upto - 1)] as nat
    }
}

/// Hidden Markov Model
#[derive(Clone, Debug)]
pub struct HiddenMarkovModel {
    pub n_states: usize,
    /// number of features of a state
    pub dim: usize,
    /// transition mass from state `i` to state `j`, at `i * n_states + j`
    pub trans: Vec<u64>,
    /// start mass of each state
    pub start: Vec<u64>,
    /// stop mass of each state
    pub stop: Vec<u64>,
    /// the features of each state, `dim` values per state
    pub states: Vec<i32>,
    /// whether a state arose from a merge across sequences
    pub is_segmental: Vec<bool>,
    /// what the transition mass of each row is divided by
    pub trans_total: Vec<u64>,
    /// what the start mass is divided by
    pub start_total: u64,
    /// what the stop mass is divided by
    pub stop_total: u64,
}

impl HiddenMarkovModel {
    /// The tables have the sizes that the number of states asks for.
    pub open spec fn wf(&self) -> bool {
        &&& self.trans@.len() == self.n_states * self.n_states
        &&& self.start@.len() == self.n_states
        &&& self.stop@.len() == self.n_states
        &&& self.states@.len() == self.n_states * self.dim
        &&& self.is_segmental@.len() == self.n_states
        &&& self.trans_total@.len() == self.n_states
    }

    /// Every total is the mass that it normalises: the transitions out of a
    /// state, the start mass and the stop mass each sum to one.
    pub open spec fn is_normalized(&self) -> bool {
        &&& self.wf()
        &&& forall|i: int|
            0 <= i < self.n_states ==> #[trigger] self.trans_total@[i] == cap(
                row_mass(self.trans@, self.n_states as int, i, self.n_states as int) as int,
            )
        &&& self.start_total == cap(sum_upto(self.start@, self.n_states as int) as int)
        &&& self.stop_total == cap(sum_upto(self.stop@, self.n_states as int) as int)
    }

    /// Normalize the transitions: every row of the transition table, the
    /// start mass and the stop mass get the total that makes them sum to one.
    pub fn normalize_transitions(&mut self)
        requires
            old(self).wf(),
        ensures
            final(self).is_normalized(),
            final(self).n_states == old(self).n_states,
            final(self).dim == old(self).dim,
            final(self).trans@ == old(self).trans@,
            final(self).start@ == old(self).start@,
            final(self).stop@ == old(self).stop@,
            final(self).states@ == old(self).states@,
            final(self).is_segmental@ == old(self).is_segmental@,
    {
        let n: usize = self.n_states;
        let mut totals: Vec<u64> = Vec::new();
        let mut i: usize = 0;
        while i < n
            invariant
                i <= n,
                n == self.n_states,
                self.wf(),
                totals@.len() == i,
                forall|k: int|
                    0 <= k < i ==> #[trigger] totals@[k] == cap(
                        row_mass(self.trans@, n as int, k, n as int) as int,
                    ),
            decreases n - i,
        {
            let mut scaler: u64 = 0;
            let mut j: usize = 0;
            while j < n
                invariant
                    j <= n,
                    i < n,
                    n == self.n_states,
                    self.wf(),
                    scaler == cap(row_mass(self.trans@, n as int, i as int, j as int) as int),
                decreases n - j,
            {
                proof {
                    lemma_product_bounds(i as int, n - 1, n as int);
                    assert((n - 1) * n + n == n * n) by (nonlinear_arith);
                    assert(self.trans.len() == self.trans@.len());
                }
                scaler = add_cost(scaler, self.trans[i * n + j]);
                j = j + 1;
            }
            totals.push(scaler);
            i = i + 1;
        }
        self.trans_total = totals;
        self.start_total = sum(self.start.as_slice());
        self.stop_total = sum(self.stop.as_slice());
    }
}

/// Where a total is not saturated, the masses that it normalises sum to it
/// exactly: the probabilities of a row of a normalised model, its start
/// probabilities and its stop probabilities each sum to one.
pub proof fn lemma_normalized_sums(model: &HiddenMarkovModel, i: int)
    requires
        model.is_normalized(),
        0 <= i < model.n_states,
    ensures
        model.trans_total@[i] < INFINITY ==> row_mass(
            model.trans@,
            model.n_states as int,
            i,
            model.n_states as int,
        ) == model.trans_total@[i],
        model.start_total < INFINITY ==> sum_upto(model.start@, model.n_states as int)
            == model.start_total,
        model.stop_total < INFINITY ==> sum_upto(model.stop@, model.n_states as int)
            == model.stop_total,
{
}

/// The logarithms that scoring works on: of the start, transition and stop
/// probabilities of a model, and of the likelihood of every frame of a
/// sequence under every state.
#[derive(Debug)]
pub struct LogScores {
    pub n_states: usize,
    /// number of frames of the sequence
    pub len: usize,
    pub start: Vec<i64>,
    /// from state `j` to state `i`, at `j * n_states + i`
    pub trans: Vec<i64>,
    pub stop: Vec<i64>,
    /// of frame `t` under state `i`, at `t * n_states + i`
    pub emission: Vec<i64>,
}

impl LogScores {
    /// The tables have the sizes that the numbers of states and frames ask for.
    pub open spec fn wf(&self) -> bool {
        &&& self.start@.len() == self.n_states
        &&& self.stop@.len() == self.n_states
        &&& self.trans@.len() == self.n_states * self.n_states
        &&& self.emission@.len() == self.len * self.n_states
    }
}

/// Sum of two logarithms; impossible stays impossible, and a sum that
/// leaves the range is held at its bound.
pub open spec fn log_add_spec(a: i64, b: i64) -> i64 {
    if a == NEG_INFINITY || b == NEG_INFINITY {
        NEG_INFINITY
    } else if a + b <= NEG_INFINITY {
        (NEG_INFINITY + 1) as i64
    } else if a + b > i64::MAX {
        i64::MAX
    } else {
        (a + b) as i64
    }
}

/// The larger of two logarithms.
pub open spec fn log_max(a: i64, b: i64) -> i64 {
    if b > a {
        b
    } else {
        a
    }
}

/// The best score of a path that is in state `i` at frame `t`.
pub open spec fn viterbi_cell(s: &LogScores, t: int, i: int) -> i64
    decreases t, 1int, 0int,
{
    if t <= 0 {
        log_add_spec(s.start@[i], s.emission@[i])
    } else {
        log_add_spec(
            best_previous(s, t, i, s.n_states as int),
            s.emission@[t * s.n_states + i],
        )
    }
}

/// The best score of arriving in state `i` at frame `t` from one of the
/// first `upto` states.
pub open spec fn best_previous(s: &LogScores, t: int, i: int, upto: int) -> i64
    decreases t, 0int, upto,
{
    if upto <= 0 || t <= 0 {
        NEG_INFINITY
    } else {
        log_max(
            best_previous(s, t, i, upto - 1),
            log_add_spec(viterbi_cell(s, t - 1, upto - 1), s.trans@[(upto - 1) * s.n_states + i]),
        )
    }
}

/// The best score of a whole path that ends in one of the first `upto` states.
pub open spec fn best_final(s: &LogScores, upto: int) -> i64
    decreases upto,
{
    if upto <= 0 {
        NEG_INFINITY
    } else {
        log_max(
            best_final(s, upto - 1),
            log_add_spec(viterbi_cell(s, s.len - 1, upto - 1), s.stop@[upto - 1]),
        )
    }
}

/// The score of the most likely state path, divided by the number of
/// frames and rounded down.
pub open spec fn viterbi_spec(s: &LogScores) -> i64 {
    let best = best_final(s, s.n_states as int);
    if best == NEG_INFINITY {
        NEG_INFINITY
    } else {
        (best as int / s.len as int) as i64
    }
}

/// Adds two logarithms.
pub fn log_add(a: i64, b: i64) -> (r: i64)
    ensures
        r == log_add_spec(a, b),
{
    if a == NEG_INFINITY || b == NEG_INFINITY {
        NEG_INFINITY
    } else {
        let wide: i128 = a as i128 + b as i128;
        if wide <= NEG_INFINITY as i128 {
            NEG_INFINITY + 1
        } else if wide > i64::MAX as i128 {
            i64::MAX
        } else {
            wide as i64
        }
    }
}

/// Divides a logarithm by a count, rounding down.
pub fn log_div(a: i64, count: usize) -> (r: i64)
    requires
        count > 0,
    ensures
        r == a as int / count as int,
{
    let d: u128 = count as u128;
    if a >= 0 {
        let q: u128 = a as u128 / d;
        q as i64
    } else {
        let neg: u128 = (-(a as i128)) as u128;
        let q: u128 = (neg + (d - 1)) / d;
        proof {
            let x: int = neg as int + (d as int - 1);
            let di: int = d as int;
            let r: int = x % di;
            let qi: int = x / di;
            assert(qi == q);
            vstd::arithmetic::div_mod::lemma_fundamental_div_mod(x, di);
            assert(x == di * qi + r);
            assert(0 <= r < di);
            let rem: int = di - 1 - r;
            assert(a as int == (-qi) * di + rem) by (nonlinear_arith)
                requires
                    x == di * qi + r,
                    x == -(a as int) + (di - 1),
                    rem == di - 1 - r,
            ;
            lemma_fundamental_div_mod_converse(a as int, di, -qi, rem);
            assert(qi <= neg) by (nonlinear_arith)
                requires
                    x == di * qi + r,
                    x == neg + (di - 1),
                    0 <= r < di,
                    di >= 1,
                    neg >= 1,
                    qi >= 0,
            ;
        }
        (-(q as i128)) as i64
    }
}

impl HiddenMarkovModel {
    /// Viterbi score of a sequence, from the logarithms of the model's
    /// probabilities and of the likelihoods of the frames.
    pub fn viterbi(&self, scores: &LogScores) -> (r: i64)
        requires
            scores.wf(),
            scores.n_states == self.n_states,
            scores.len >= 1,
        ensures
            r == viterbi_spec(scores),
    {
        let n: usize = scores.n_states;
        let len: usize = scores.len;
        let mut prev: Vec<i64> = Vec::new();
        let mut i: usize = 0;
        proof {
            assert(scores.emission.len() == scores.emission@.len());
            assert(scores.trans.len() == scores.trans@.len());
            assert(n <= len * n) by (nonlinear_arith)
                requires
                    len >= 1,
                    n >= 0,
            ;
        }
        while i < n
            invariant
                i <= n,
                scores.wf(),
                n == scores.n_states,
                n <= scores.emission@.len(),
                prev@.len() == i,
                forall|k: int| 0 <= k < i ==> #[trigger] prev@[k] == viterbi_cell(scores, 0, k),
            decreases n - i,
        {
            prev.push(log_add(scores.start[i], scores.emission[i]));
            i = i + 1;
        }
        let mut t: usize = 1;
        while t < len
            invariant
                1 <= t <= len,
                scores.wf(),
                n == scores.n_states,
                len == scores.len,
                prev@.len() == n,
                scores.emission@.len() <= usize::MAX,
                scores.trans@.len() <= usize::MAX,
                forall|k: int| 0 <= k < n ==> #[trigger] prev@[k] == viterbi_cell(scores, t - 1, k),
            decreases len - t,
        {
            let mut cur: Vec<i64> = Vec::new();
            let mut i: usize = 0;
            while i < n
                invariant
                    i <= n,
                    1 <= t < len,
                    scores.wf(),
                    n == scores.n_states,
                    len == scores.len,
                    prev@.len() == n,
                    cur@.len() == i,
                    scores.emission@.len() <= usize::MAX,
                    scores.trans@.len() <= usize::MAX,
                    forall|k: int|
                        0 <= k < n ==> #[trigger] prev@[k] == viterbi_cell(scores, t - 1, k),
                    forall|k: int|
                        0 <= k < i ==> #[trigger] cur@[k] == viterbi_cell(scores, t as int, k),
                decreases n - i,
            {
                let mut max: i64 = NEG_INFINITY;
                let mut j: usize = 0;
                while j < n
                    invariant
                        j <= n,
                        i < n,
                        1 <= t < len,
                        scores.wf(),
                        n == scores.n_states,
                        prev@.len() == n,
                        scores.trans@.len() <= usize::MAX,
                        forall|k: int|
                            0 <= k < n ==> #[trigger] prev@[k] == viterbi_cell(scores, t - 1, k),
                        max == best_previous(scores, t as int, i as int, j as int),
                    decreases n - j,
                {
                    proof {
                        lemma_product_bounds(j as int, n - 1, n as int);
                        assert((n - 1) * n + n == n * n) by (nonlinear_arith);
                    }
                    let ll = log_add(prev[j], scores.trans[j * n + i]);
                    if ll > max {
                        max = ll;
                    }
                    j = j + 1;
                }
                proof {
                    lemma_product_bounds(t as int, len - 1, n as int);
                    assert((len - 1) * n + n == len * n) by (nonlinear_arith);
                }
                cur.push(log_add(max, scores.emission[t * n + i]));
                i = i + 1;
            }
            prev = cur;
            t = t + 1;
        }
        let mut max: i64 = NEG_INFINITY;
        let mut i: usize = 0;
        while i < n
            invariant
                i <= n,
                scores.wf(),
                n == scores.n_states,
                len == scores.len,
                prev@.len() == n,
                forall|k: int|
                    0 <= k < n ==> #[trigger] prev@[k] == viterbi_cell(scores, len - 1, k),
                max == best_final(scores, i as int),
            decreases n - i,
        {
            let ll = log_add(prev[i], scores.stop[i]);
            if ll > max {
                max = ll;
            }
            i = i + 1;
        }
        if max == NEG_INFINITY {
            NEG_INFINITY
        } else {
            log_div(max, len)
        }
    }
}

/// `best` is the first of the scores that no other exceeds.
pub open spec fn is_first_best(scores: Seq<i64>, best: int) -> bool {
    &&& 0 <= best < scores.len()
    &&& forall|k: int| 0 <= k < scores.len() ==> #[trigger] scores[k] <= scores[best]
    &&& forall|k: int| 0 <= k < best ==> #[trigger] scores[k] < scores[best]
}

/// The cluster whose model scores a sequence best: the first of the models
/// with the largest score; none where there is no model.
pub fn classify(scores: &Vec<i64>) -> (r: Option<usize>)
    ensures
        scores@.len() == 0 ==> r is None,
        scores@.len() > 0 ==> r is Some && is_first_best(scores@, r->0 as int),
{
    if scores.len() == 0 {
        return None;
    }
    let mut best: usize = 0;
    let mut k: usize = 1;
    while k < scores.len()
        invariant
            1 <= k <= scores@.len(),
            best < k,
            forall|u: int| 0 <= u < k ==> #[trigger] scores@[u] <= scores@[best as int],
            forall|u: int| 0 <= u < best ==> #[trigger] scores@[u] < scores@[best as int],
        decreases scores@.len() - k,
    {
        if scores[k] > scores[best] {
            best = k;
        }
        k = k + 1;
    }
    Some(best)
}

} // verus!
