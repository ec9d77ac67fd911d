//! Model merging: builds a compact automaton for a cluster by merging the
//! states of a chain that has one state for every frame of every member.

use crate::alignments::{alignment_path, warping_path, AlignmentLabel, AlignmentNode};
use crate::discovery::Discovery;
use crate::hidden_markov_model::HiddenMarkovModel;
use crate::numerics::{
    add_cost, add_cost_spec, euclidean, euclidean_spec, mean, mean_spec, percentile,
    percentile_spec, INFINITY, PER_MILLE,
};
use crate::spectrogram::{lemma_frame_in_bounds, lemma_product_bounds, NDSequence, Slice};
use vstd::arithmetic::div_mod::{lemma_fundamental_div_mod, lemma_fundamental_div_mod_converse};
use vstd::prelude::*;

verus! {

/// A candidate for a merge of two states, each given by a member of the
/// cluster and a frame of that member.
#[derive(Clone, Copy, Debug)]
pub struct MergeOperation {
    pub slice_i: usize,
    pub slice_j: usize,
    pub i: usize,
    pub j: usize,
    pub dist: u64,
    pub is_from_alignment: bool,
}

/// Every state points to itself or to a state before it.
pub open spec fn parent_wf(parent: Seq<usize>) -> bool {
    forall|s: int| 0 <= s < parent.len() ==> #[trigger] parent[s] <= s
}

/// The state that `s` was merged into, itself where it was not merged.
pub open spec fn state_root(parent: Seq<usize>, s: int) -> int
    decreases s,
{
    if 0 <= s < parent.len() && parent[s] < s {
        state_root(parent, parent[s] as int)
    } else {
        s
    }
}

/// The root of a state is a state that was not merged away.
pub proof fn lemma_state_root(parent: Seq<usize>, s: int)
    requires
        parent_wf(parent),
        0 <= s < parent.len(),
    ensures
        0 <= state_root(parent, s) <= s,
        parent[state_root(parent, s)] == state_root(parent, s),
    decreases s,
{
    if parent[s] < s {
        lemma_state_root(parent, parent[s] as int);
    }
}

/// Finding the root is idempotent: the root of a root is that root.
pub proof fn lemma_find_idempotent(parent: Seq<usize>, s: int)
    requires
        parent_wf(parent),
        0 <= s < parent.len(),
    ensures
        state_root(parent, state_root(parent, s)) == state_root(parent, s),
{
    lemma_state_root(parent, s);
}

/// Once the root `hi` points to the smaller root `lo`, every state that
/// stood under `hi` stands under `lo`, and every other state keeps its root.
pub proof fn lemma_root_after_absorb(parent: Seq<usize>, lo: usize, hi: usize, s: int)
    requires
        parent_wf(parent),
        lo < hi < parent.len(),
        parent[lo as int] == lo,
        parent[hi as int] == hi,
        0 <= s < parent.len(),
    ensures
        state_root(parent.update(hi as int, lo), s) == if state_root(parent, s) == hi {
            lo as int
        } else {
            state_root(parent, s)
        },
    decreases s,
{
    let after = parent.update(hi as int, lo);
    if s == hi {
        assert(after[s] == lo);
        assert(state_root(after, lo as int) == lo);
    } else {
        assert(after[s] == parent[s]);
        if parent[s] < s {
            lemma_root_after_absorb(parent, lo, hi, parent[s] as int);
        }
    }
}

/// Of two merged states the one that survives is the smaller of their two
/// roots at the time of the merge.
pub proof fn lemma_merge_survivor(parent: Seq<usize>, a: usize, b: usize)
    requires
        parent_wf(parent),
        a < parent.len(),
        b < parent.len(),
        parent[a as int] == a,
        parent[b as int] == b,
        a != b,
    ensures
        ({
            let lo = if a < b {
                a
            } else {
                b
            };
            let hi = if a < b {
                b
            } else {
                a
            };
            let after = parent.update(hi as int, lo);
            &&& parent_wf(after)
            &&& state_root(after, a as int) == lo
            &&& state_root(after, b as int) == lo
        }),
{
    let lo = if a < b {
        a
    } else {
        b
    };
    let hi = if a < b {
        b
    } else {
        a
    };
    lemma_root_after_absorb(parent, lo, hi, a as int);
    lemma_root_after_absorb(parent, lo, hi, b as int);
}

/// The cell `(r, c)` of a square table of side `n` lies at `r * n + c`,
/// and no other cell does.
pub proof fn lemma_cell_index(n: int, r: int, c: int)
    requires
        0 <= r < n,
        0 <= c < n,
    ensures
        0 <= r * n + c < n * n,
        (r * n + c) / n == r,
        (r * n + c) % n == c,
{
    assert(0 <= r * n <= (n - 1) * n) by (nonlinear_arith)
        requires
            0 <= r <= n - 1,
            n > 0,
    ;
    assert((n - 1) * n + n == n * n) by (nonlinear_arith);
    lemma_fundamental_div_mod_converse(r * n + c, n, r, c);
}

/// Every position of a square table of side `n` is the position of a cell.
pub proof fn lemma_index_cell(n: int, idx: int)
    requires
        n > 0,
        0 <= idx < n * n,
    ensures
        0 <= idx / n < n,
        0 <= idx % n < n,
        idx == (idx / n) * n + idx % n,
{
    lemma_fundamental_div_mod(idx, n);
    let q = idx / n;
    assert(q < n) by (nonlinear_arith)
        requires
            idx == n * q + idx % n,
            0 <= idx % n,
            idx < n * n,
            n > 0,
    ;
    assert(q >= 0) by (nonlinear_arith)
        requires
            idx == n * q + idx % n,
            idx % n < n,
            idx >= 0,
            n > 0,
    ;
    assert(n * q == q * n) by (nonlinear_arith);
}

/// The cells of row `lo` are the positions from `lo * n` up to `lo * n + n`.
pub proof fn lemma_row_range(n: int, r: int, c: int, lo: int)
    requires
        0 <= r,
        0 <= c < n,
        0 <= lo,
    ensures
        (lo * n <= r * n + c < lo * n + n) <==> r == lo,
{
    if r < lo {
        assert(r * n + n <= lo * n) by (nonlinear_arith)
            requires
                r + 1 <= lo,
                n > 0,
        ;
    } else if r > lo {
        assert(lo * n + n <= r * n) by (nonlinear_arith)
            requires
                lo + 1 <= r,
                n > 0,
        ;
    }
}

/// Transition mass at `(r, c)` once state `hi` is absorbed into state
/// `lo`: the row of `hi` is added to the row of `lo`, then the column of
/// `hi` to the column of `lo`, and `lo` gets one more unit on its loop.
pub open spec fn merged_cell(trans: Seq<u64>, n: int, lo: int, hi: int, r: int, c: int) -> u64 {
    let rows = |a: int, b: int|
        if a == lo {
            add_cost_spec(trans[a * n + b], trans[hi * n + b])
        } else {
            trans[a * n + b]
        };
    let columns = if c == lo {
        add_cost_spec(rows(r, c), rows(r, hi))
    } else {
        rows(r, c)
    };
    if r == lo && c == lo {
        add_cost_spec(columns, 1)
    } else {
        columns
    }
}

/// Mean of two features, rounded towards zero.
pub open spec fn average_spec(a: i32, b: i32) -> i32 {
    if a + b >= 0 {
        ((a + b) / 2) as i32
    } else {
        (-((-(a + b)) / 2)) as i32
    }
}

/// Mean of two features, rounded towards zero.
pub fn average(a: i32, b: i32) -> (r: i32)
    ensures
        r == average_spec(a, b),
{
    let total: i64 = a as i64 + b as i64;
    if total >= 0 {
        ((total as u64) / 2) as i32
    } else {
        let half: u64 = ((-total) as u64) / 2;
        (-(half as i64)) as i32
    }
}

/// What model merging works on, as plain values.
pub struct ModelView {
    pub n_states: nat,
    pub dim: nat,
    pub trans: Seq<u64>,
    pub start: Seq<u64>,
    pub stop: Seq<u64>,
    pub states: Seq<i32>,
    pub is_segmental: Seq<bool>,
    pub state_map: Seq<usize>,
    pub merge_parent: Seq<usize>,
}

/// The model that absorbing the root `hi` into the smaller root `lo` leaves.
pub open spec fn absorb(v: ModelView, lo: int, hi: int, from_alignment: bool) -> ModelView {
    let n = v.n_states as int;
    let dim = v.dim as int;
    ModelView {
        n_states: v.n_states,
        dim: v.dim,
        trans: Seq::new(
            v.trans.len(),
            |idx: int|
                if n > 0 {
                    merged_cell(v.trans, n, lo, hi, idx / n, idx % n)
                } else {
                    v.trans[idx]
                },
        ),
        start: v.start.update(lo, add_cost_spec(v.start[lo], v.start[hi])),
        stop: v.stop.update(lo, add_cost_spec(v.stop[lo], v.stop[hi])),
        states: Seq::new(
            v.states.len(),
            |idx: int|
                if lo * dim <= idx < lo * dim + dim {
                    average_spec(v.states[idx], v.states[hi * dim + (idx - lo * dim)])
                } else {
                    v.states[idx]
                },
        ),
        is_segmental: v.is_segmental.update(lo, v.is_segmental[lo] || from_alignment),
        state_map: v.state_map,
        merge_parent: v.merge_parent.update(hi, lo as usize),
    }
}

/// The model that merging the roots `a` and `b` leaves: the larger is
/// absorbed into the smaller, and nothing changes where they are the same.
pub open spec fn merge_states(v: ModelView, a: int, b: int, from_alignment: bool) -> ModelView {
    if a == b {
        v
    } else if a < b {
        absorb(v, a, b, from_alignment)
    } else {
        absorb(v, b, a, from_alignment)
    }
}

/// The state that a candidate names first, and the one it names second.
pub open spec fn candidate_states(v: ModelView, op: MergeOperation) -> (int, int) {
    (v.state_map[op.slice_i as int] + op.i, v.state_map[op.slice_j as int] + op.j)
}

/// The candidate names two frames of two members of the cluster.
pub open spec fn candidate_ok(state_map: Seq<usize>, op: MergeOperation) -> bool {
    &&& op.slice_i + 1 < state_map.len()
    &&& op.slice_j + 1 < state_map.len()
    &&& state_map[op.slice_i as int] + op.i < state_map[op.slice_i + 1]
    &&& state_map[op.slice_j as int] + op.j < state_map[op.slice_j + 1]
}

/// The model after a candidate is applied: the roots of its two states are
/// merged.
pub open spec fn apply_candidate(v: ModelView, op: MergeOperation) -> ModelView {
    let (a, b) = candidate_states(v, op);
    merge_states(
        v,
        state_root(v.merge_parent, a),
        state_root(v.merge_parent, b),
        op.is_from_alignment,
    )
}

/// The model after the first `upto` candidates are applied in their order.
pub open spec fn apply_all(v: ModelView, ops: Seq<MergeOperation>, upto: int) -> ModelView
    decreases upto,
{
    if upto <= 0 {
        v
    } else {
        apply_candidate(apply_all(v, ops, upto - 1), ops[upto - 1])
    }
}

/// Number of frames of a range.
pub open spec fn slice_len(s: Slice) -> int {
    s.stop - s.start
}

/// The distance of every frame of a range to the frame before it; zero for
/// the first frame.
pub open spec fn slice_distances(s: Slice) -> Seq<u64> {
    Seq::new(
        (if slice_len(s) <= 0 {
            1
        } else {
            slice_len(s)
        }) as nat,
        |t: int|
            if t == 0 {
                0u64
            } else {
                euclidean_spec(s.sequence.frame(s.start + t), s.sequence.frame(s.start + t - 1))
                    as u64
            },
    )
}

/// The local distances along a path.
pub open spec fn path_scores(path: Seq<AlignmentNode>) -> Seq<u64> {
    Seq::new(path.len(), |t: int| path[t].score)
}

/// The smoothed distance at step `t` of a path: the local distance itself
/// for the first `k` steps, thereafter the mean of the `k` local distances
/// before it. With a window of zero steps there is no mean, and the
/// distance is out of reach.
pub open spec fn smoothed(scores: Seq<u64>, k: int, t: int) -> u64 {
    if t < k {
        scores[t]
    } else if k <= 0 {
        INFINITY
    } else {
        mean_spec(scores.subrange(t - k, t))
    }
}

/// The candidates that one node of the path between the members `x` and
/// `y` yields: for each of the two frames that it aligns, a merge with the
/// frame before it where the two are closer than the threshold of their
/// member, and for a match whose smoothed distance is below the common
/// threshold, a merge of the two frames.
pub open spec fn node_candidates(
    x: usize,
    y: usize,
    sx: Slice,
    sy: Slice,
    per_mille: u64,
    th: u64,
    node: AlignmentNode,
    distance: u64,
) -> Seq<MergeOperation> {
    if 1 <= node.i <= slice_len(sx) && 1 <= node.j <= slice_len(sy) {
        let fi = (node.i - 1) as usize;
        let fj = (node.j - 1) as usize;
        let dist_i = slice_distances(sx);
        let dist_j = slice_distances(sy);
        let first = if fi > 0 && dist_i[fi as int] < percentile_spec(dist_i, per_mille) {
            seq![
                MergeOperation {
                    slice_i: x,
                    slice_j: x,
                    i: fi,
                    j: (fi - 1) as usize,
                    dist: dist_i[fi as int],
                    is_from_alignment: false,
                },
            ]
        } else {
            Seq::empty()
        };
        let second = if fj > 0 && dist_j[fj as int] < percentile_spec(dist_j, per_mille) {
            seq![
                MergeOperation {
                    slice_i: y,
                    slice_j: y,
                    i: fj,
                    j: (fj - 1) as usize,
                    dist: dist_j[fj as int],
                    is_from_alignment: false,
                },
            ]
        } else {
            Seq::empty()
        };
        let third = if node.label == AlignmentLabel::Match && distance < th {
            seq![
                MergeOperation {
                    slice_i: x,
                    slice_j: y,
                    i: fi,
                    j: fj,
                    dist: distance,
                    is_from_alignment: true,
                },
            ]
        } else {
            Seq::empty()
        };
        first + second + third
    } else {
        Seq::empty()
    }
}

/// The candidates of the first `upto` nodes of a path, in their order.
pub open spec fn path_candidates(
    x: usize,
    y: usize,
    sx: Slice,
    sy: Slice,
    per_mille: u64,
    th: u64,
    k: usize,
    path: Seq<AlignmentNode>,
    upto: int,
) -> Seq<MergeOperation>
    decreases upto,
{
    if upto <= 0 {
        Seq::empty()
    } else {
        path_candidates(x, y, sx, sy, per_mille, th, k, path, upto - 1) + node_candidates(
            x,
            y,
            sx,
            sy,
            per_mille,
            th,
            path[upto - 1],
            smoothed(path_scores(path), k as int, upto - 1),
        )
    }
}

/// The candidates of the first `upto` aligned pairs, in their order.
pub open spec fn all_candidates(
    paths: Seq<(usize, usize, Vec<AlignmentNode>)>,
    slices: Seq<Slice>,
    per_mille: u64,
    th: u64,
    k: usize,
    upto: int,
) -> Seq<MergeOperation>
    decreases upto,
{
    if upto <= 0 {
        Seq::empty()
    } else {
        let (x, y, path) = paths[upto - 1];
        all_candidates(paths, slices, per_mille, th, k, upto - 1) + path_candidates(
            x,
            y,
            slices[x as int],
            slices[y as int],
            per_mille,
            th,
            k,
            path@,
            path@.len() as int,
        )
    }
}

/// Every candidate names a frame of the range that it names.
pub open spec fn within_slices(slices: Seq<Slice>, ops: Seq<MergeOperation>) -> bool {
    forall|t: int|
        0 <= t < ops.len() ==> {
            &&& (#[trigger] ops[t]).slice_i < slices.len()
            &&& ops[t].slice_j < slices.len()
            &&& ops[t].i < slice_len(slices[ops[t].slice_i as int])
            &&& ops[t].j < slice_len(slices[ops[t].slice_j as int])
        }
}

/// The members of the model are the given ranges, in their order.
pub open spec fn members_are(state_map: Seq<usize>, slices: Seq<Slice>) -> bool {
    &&& state_map.len() == slices.len() + 1
    &&& forall|m: int|
        0 <= m < slices.len() ==> #[trigger] state_map[m] + slice_len(slices[m]) == state_map[m
            + 1]
}

/// Number of frames of the first `upto` ranges.
pub open spec fn total_frames(slices: Seq<Slice>, upto: int) -> int
    decreases upto,
{
    if upto <= 0 {
        0
    } else {
        total_frames(slices, upto - 1) + slice_len(slices[upto - 1])
    }
}

/// The frames of the first `upto` ranges, one range after the other.
pub open spec fn all_frames(slices: Seq<Slice>, upto: int) -> Seq<i32>
    decreases upto,
{
    if upto <= 0 {
        Seq::empty()
    } else {
        all_frames(slices, upto - 1) + slices[upto - 1].frames()
    }
}

/// The state `s` is the first frame of a member.
pub open spec fn is_first(state_map: Seq<usize>, s: int) -> bool {
    exists|m: int| 0 <= m < state_map.len() - 1 && #[trigger] state_map[m] == s && s < state_map[m + 1]
}

/// The state `s` is the last frame of a member.
pub open spec fn is_last(state_map: Seq<usize>, s: int) -> bool {
    exists|m: int|
        0 <= m < state_map.len() - 1 && #[trigger] state_map[m] <= s && s + 1 == state_map[m + 1]
}

/// The members lie one behind the other.
pub open spec fn offsets_wf(state_map: Seq<usize>) -> bool {
    &&& state_map.len() >= 1
    &&& state_map[0] == 0
    &&& forall|m: int, k: int|
        0 <= m <= k < state_map.len() ==> #[trigger] state_map[m] <= #[trigger] state_map[k]
}

/// `v` is the chain of the given ranges: one state for every frame of every
/// member, each in a class of its own; start mass one at the first frame of
/// a member, stop mass one at its last, and a unit transition from every
/// frame of a member to the next.
pub open spec fn is_chain(v: ModelView, slices: Seq<Slice>) -> bool {
    let n = v.n_states as int;
    &&& members_are(v.state_map, slices)
    &&& n == total_frames(slices, slices.len() as int)
    &&& v.dim == slices[0].sequence.n_bins
    &&& v.states == all_frames(slices, slices.len() as int)
    &&& v.merge_parent == Seq::new(v.n_states, |s: int| s as usize)
    &&& v.is_segmental == Seq::new(v.n_states, |s: int| false)
    &&& forall|s: int|
        0 <= s < n ==> #[trigger] v.start[s] == if is_first(v.state_map, s) {
            1u64
        } else {
            0u64
        }
    &&& forall|s: int|
        0 <= s < n ==> #[trigger] v.stop[s] == if is_last(v.state_map, s) {
            1u64
        } else {
            0u64
        }
    &&& forall|a: int, b: int|
        0 <= a < n && 0 <= b < n ==> #[trigger] v.trans[a * n + b] == if b == a + 1 && !is_last(
            v.state_map,
            a,
        ) {
            1u64
        } else {
            0u64
        }
}

/// A state belongs to one member only.
pub proof fn lemma_member_unique(state_map: Seq<usize>, m: int, k: int, s: int)
    requires
        offsets_wf(state_map),
        0 <= m < state_map.len() - 1,
        0 <= k < state_map.len() - 1,
        state_map[m] <= s < state_map[m + 1],
        state_map[k] <= s < state_map[k + 1],
    ensures
        m == k,
{
    if m < k {
        assert(state_map[m + 1] <= state_map[k]);
    } else if k < m {
        assert(state_map[k + 1] <= state_map[m]);
    }
}

/// The number of frames grows with the number of ranges.
pub proof fn lemma_total_frames_monotonic(slices: Seq<Slice>, a: int, b: int)
    requires
        0 <= a <= b <= slices.len(),
        forall|m: int| 0 <= m < slices.len() ==> (#[trigger] slices[m]).wf(),
    ensures
        0 <= total_frames(slices, a) <= total_frames(slices, b),
    decreases b,
{
    if a < b {
        lemma_total_frames_monotonic(slices, a, b - 1);
    } else if a > 0 {
        lemma_total_frames_monotonic(slices, a - 1, a - 1);
    }
}

/// The ranges of one dimension hold as many features as they have frames,
/// times the dimension.
pub proof fn lemma_all_frames_len(slices: Seq<Slice>, dim: int, upto: int)
    requires
        0 <= upto <= slices.len(),
        forall|m: int| 0 <= m < slices.len() ==> (#[trigger] slices[m]).wf(),
        forall|m: int| 0 <= m < slices.len() ==> (#[trigger] slices[m]).sequence.n_bins == dim,
    ensures
        all_frames(slices, upto).len() == total_frames(slices, upto) * dim,
    decreases upto,
{
    if upto > 0 {
        lemma_all_frames_len(slices, dim, upto - 1);
        let s = slices[upto - 1];
        assert(s.wf());
        if s.stop > 0 {
            lemma_frame_in_bounds(s.sequence.frames@.len(), dim as nat, (s.stop - 1) as nat);
            assert((s.stop - 1 + 1) * dim == s.stop * dim);
        } else {
            assert(s.stop * dim == 0) by (nonlinear_arith)
                requires
                    s.stop == 0,
            ;
        }
        lemma_product_bounds(s.start as int, s.stop as int, dim);
        assert(s.frames().len() == s.stop * dim - s.start * dim);
        assert((total_frames(slices, upto - 1) + (s.stop - s.start)) * dim == total_frames(
            slices,
            upto - 1,
        ) * dim + (s.stop * dim - s.start * dim)) by (nonlinear_arith);
    }
}

/// The states among the first `upto` that were not merged away, in their
/// order.
pub open spec fn roots_upto(parent: Seq<usize>, upto: int) -> Seq<usize>
    decreases upto,
{
    if upto <= 0 {
        Seq::empty()
    } else {
        let rest = roots_upto(parent, upto - 1);
        if parent[upto - 1] == upto - 1 {
            rest.push((upto - 1) as usize)
        } else {
            rest
        }
    }
}

/// `out` is the model `v` restricted to the states that were not merged
/// away, renumbered in their order: state `a` of `out` is the `a`-th of
/// them.
pub open spec fn is_shrunk(v: ModelView, out: &HiddenMarkovModel) -> bool {
    let roots = roots_upto(v.merge_parent, v.n_states as int);
    let n = roots.len() as int;
    let big = v.n_states as int;
    let dim = v.dim as int;
    &&& out.n_states == n
    &&& out.dim == dim
    &&& out.wf()
    &&& forall|a: int| 0 <= a < n ==> #[trigger] out.start@[a] == v.start[roots[a] as int]
    &&& forall|a: int| 0 <= a < n ==> #[trigger] out.stop@[a] == v.stop[roots[a] as int]
    &&& forall|a: int|
        0 <= a < n ==> #[trigger] out.is_segmental@[a] == v.is_segmental[roots[a] as int]
    &&& forall|a: int, d: int|
        0 <= a < n && 0 <= d < dim ==> #[trigger] out.states@[a * dim + d] == v.states[roots[a]
            * dim + d]
    &&& forall|a: int, b: int|
        0 <= a < n && 0 <= b < n ==> #[trigger] out.trans@[a * n + b] == v.trans[roots[a] * big
            + roots[b]]
}

/// The cell `(r, c)` of a table with rows of `w` cells lies behind every
/// cell of an earlier row and every earlier cell of its own row.
pub proof fn lemma_cell_order(w: int, r: int, c: int, r2: int, c2: int)
    requires
        0 <= r,
        0 <= c < w,
        0 <= r2,
        0 <= c2 < w,
        r < r2 || (r == r2 && c < c2),
    ensures
        0 <= r * w + c < r2 * w + c2,
{
    if r < r2 {
        assert(r * w + w <= r2 * w) by (nonlinear_arith)
            requires
                r + 1 <= r2,
                w > 0,
        ;
    }
    assert(r * w >= 0) by (nonlinear_arith)
        requires
            r >= 0,
            w > 0,
    ;
}

/// The local distances of the first `upto` paths, one path after the other.
pub open spec fn all_scores(paths: Seq<(usize, usize, Vec<AlignmentNode>)>, upto: int) -> Seq<u64>
    decreases upto,
{
    if upto <= 0 {
        Seq::empty()
    } else {
        all_scores(paths, upto - 1) + path_scores(paths[upto - 1].2@)
    }
}

/// The ranges are the whole sequences, in their order.
pub open spec fn are_whole(slices: Seq<Slice>, members: Seq<NDSequence>) -> bool {
    &&& slices.len() == members.len()
    &&& forall|i: int|
        0 <= i < slices.len() ==> {
            &&& (#[trigger] slices[i]).start == 0
            &&& slices[i].stop == members[i].frame_count()
            &&& *slices[i].sequence == members[i]
        }
}

/// Number of frames of the first `upto` sequences.
pub open spec fn member_frames(members: Seq<NDSequence>, upto: int) -> int
    decreases upto,
{
    if upto <= 0 {
        0
    } else {
        member_frames(members, upto - 1) + members[upto - 1].frame_count()
    }
}

/// Whole sequences have as many frames as ranges as they have themselves.
pub proof fn lemma_whole_frames(slices: Seq<Slice>, members: Seq<NDSequence>, upto: int)
    requires
        are_whole(slices, members),
        0 <= upto <= members.len(),
    ensures
        total_frames(slices, upto) == member_frames(members, upto),
    decreases upto,
{
    if upto > 0 {
        lemma_whole_frames(slices, members, upto - 1);
        assert(slices[upto - 1].start == 0);
    }
}

/// The longer of two sequences, in frames.
pub open spec fn longer(a: &NDSequence, b: &NDSequence) -> usize {
    if a.frame_count() >= b.frame_count() {
        a.frame_count() as usize
    } else {
        b.frame_count() as usize
    }
}

/// One of the paths is that of the members `x` and `y`.
pub open spec fn has_pair(paths: Seq<(usize, usize, Vec<AlignmentNode>)>, x: int, y: int) -> bool {
    exists|k: int| 0 <= k < paths.len() && (#[trigger] paths[k]).0 == x && paths[k].1 == y
}

/// `paths` holds the warping path of every pair of members of which the
/// second stands before the first, the pairs in ascending order.
pub open spec fn are_cluster_paths(
    paths: Seq<(usize, usize, Vec<AlignmentNode>)>,
    members: Seq<NDSequence>,
    params: &Discovery,
) -> bool {
    &&& forall|k: int|
        0 <= k < paths.len() ==> {
            let (x, y, path) = #[trigger] paths[k];
            &&& y < x < members.len()
            &&& path@ == alignment_path(
                &members[x as int],
                &members[y as int],
                &params.alignment_params_spec(longer(&members[x as int], &members[y as int])),
            )
        }
    &&& forall|k: int, l: int|
        0 <= k < l < paths.len() ==> (#[trigger] paths[k]).0 < (#[trigger] paths[l]).0 || (paths[k].0
            == paths[l].0 && paths[k].1 < paths[l].1)
    &&& forall|x: int, y: int| 0 <= y < x < members.len() ==> #[trigger] has_pair(paths, x, y)
}

/// The chain after the merges along the paths, with the common threshold
/// taken from the local distances on all paths. Where the paths are empty
/// nothing is merged.
pub open spec fn merged_chain(
    chain: ModelView,
    slices: Seq<Slice>,
    paths: Seq<(usize, usize, Vec<AlignmentNode>)>,
    params: &Discovery,
) -> ModelView {
    let scores = all_scores(paths, paths.len() as int);
    let candidates = all_candidates(
        paths,
        slices,
        params.merging_internal_percentile,
        percentile_spec(scores, params.merging_percentile),
        params.merging_moving,
        paths.len() as int,
    );
    if scores.len() == 0 {
        chain
    } else {
        apply_all(chain, candidates, candidates.len() as int)
    }
}

/// `model` is the compact model of a cluster of whole sequences: the chain
/// of the members, merged along the warping paths between them, and shrunk.
pub open spec fn is_cluster_model(
    members: Seq<NDSequence>,
    params: &Discovery,
    model: &HiddenMarkovModel,
) -> bool {
    exists|slices: Seq<Slice>, paths: Seq<(usize, usize, Vec<AlignmentNode>)>, chain: ModelView|
        {
            &&& are_whole(slices, members)
            &&& are_cluster_paths(paths, members, params)
            &&& #[trigger] is_chain(chain, slices)
            &&& view_wf(chain)
            &&& #[trigger] is_shrunk(merged_chain(chain, slices, paths, params), model)
        }
}

/// Model merging: Build HMM by merging states
pub struct ModelMerging {
    pub hmm: HiddenMarkovModel,
    /// the first state of each member, and behind the last member the
    /// number of states: frame `t` of member `m` is state `state_map[m] + t`
    pub state_map: Vec<usize>,
    /// union find parent structure to manage merges
    pub merge_parent: Vec<usize>,
}

impl View for ModelMerging {
    type V = ModelView;

    open spec fn view(&self) -> ModelView {
        ModelView {
            n_states: self.hmm.n_states as nat,
            dim: self.hmm.dim as nat,
            trans: self.hmm.trans@,
            start: self.hmm.start@,
            stop: self.hmm.stop@,
            states: self.hmm.states@,
            is_segmental: self.hmm.is_segmental@,
            state_map: self.state_map@,
            merge_parent: self.merge_parent@,
        }
    }
}

/// The tables of the model have the sizes that its number of states asks
/// for, the members follow one another in the chain, and every state
/// points to itself or to a state before it.
pub open spec fn view_wf(v: ModelView) -> bool {
    &&& v.trans.len() == v.n_states * v.n_states
    &&& v.start.len() == v.n_states
    &&& v.stop.len() == v.n_states
    &&& v.states.len() == v.n_states * v.dim
    &&& v.is_segmental.len() == v.n_states
    &&& v.merge_parent.len() == v.n_states
    &&& parent_wf(v.merge_parent)
    &&& v.state_map.len() >= 1
    &&& v.state_map[0] == 0
    &&& v.state_map.last() == v.n_states
    &&& forall|m: int, k: int|
        0 <= m <= k < v.state_map.len() ==> #[trigger] v.state_map[m] <= #[trigger] v.state_map[k]
}

impl ModelMerging {
    /// The model is well formed, and every row of transitions has a total.
    pub open spec fn wf(&self) -> bool {
        &&& view_wf(self@)
        &&& self.hmm.trans_total@.len() == self.hmm.n_states
    }

    /// Find which state this one is merged into using union find
    pub fn find_parent(&self, i: usize) -> (r: usize)
        requires
            parent_wf(self.merge_parent@),
            i < self.merge_parent@.len(),
        ensures
            r == state_root(self.merge_parent@, i as int),
            r <= i,
            self.merge_parent@[r as int] == r,
    {
        let mut p: usize = i;
        proof {
            lemma_state_root(self.merge_parent@, i as int);
        }
        while p != self.merge_parent[p]
            invariant
                parent_wf(self.merge_parent@),
                p <= i < self.merge_parent@.len(),
                state_root(self.merge_parent@, p as int) == state_root(
                    self.merge_parent@,
                    i as int,
                ),
            decreases p,
        {
            p = self.merge_parent[p];
        }
        p
    }

    /// Merge two states that were not merged away: the one with the larger
    /// index is absorbed into the other.
    pub fn merge(&mut self, state_i: usize, state_j: usize, from_alignment: bool)
        requires
            old(self).wf(),
            state_i < old(self).hmm.n_states,
            state_j < old(self).hmm.n_states,
            old(self).merge_parent@[state_i as int] == state_i,
            old(self).merge_parent@[state_j as int] == state_j,
        ensures
            final(self)@ == merge_states(
                old(self)@,
                state_i as int,
                state_j as int,
                from_alignment,
            ),
            final(self).wf(),
            final(self).hmm.trans_total@ == old(self).hmm.trans_total@,
            final(self).hmm.start_total == old(self).hmm.start_total,
            final(self).hmm.stop_total == old(self).hmm.stop_total,
    {
        if state_i == state_j {
            return ;
        }
        let lo: usize = if state_i < state_j {
            state_i
        } else {
            state_j
        };
        let hi: usize = if state_i < state_j {
            state_j
        } else {
            state_i
        };
        let n: usize = self.hmm.n_states;
        let dim: usize = self.hmm.dim;
        let ghost before = self@;
        let ghost t0 = self.hmm.trans@;
        proof {
            assert(self.hmm.trans.len() == self.hmm.trans@.len());
            assert(self.hmm.states.len() == self.hmm.states@.len());
            assert(0 <= lo * n && lo * n + n <= hi * n && hi * n + n <= n * n)
                by (nonlinear_arith)
                requires
                    0 <= lo,
                    lo + 1 <= hi,
                    hi + 1 <= n,
            ;
        }
        // move all outgoing connections from hi to lo
        let mut k: usize = 0;
        while k < n
            invariant
                k <= n,
                lo < hi < n,
                n * n <= usize::MAX,
                self.hmm.trans@.len() == n * n,
                t0.len() == n * n,
                0 <= lo * n,
                lo * n + n <= hi * n,
                hi * n + n <= n * n,
                forall|idx: int|
                    0 <= idx < n * n && (idx < lo * n || idx >= lo * n + k)
                        ==> #[trigger] self.hmm.trans@[idx] == t0[idx],
                forall|c: int|
                    0 <= c < k ==> #[trigger] self.hmm.trans@[lo * n + c] == add_cost_spec(
                        t0[lo * n + c],
                        t0[hi * n + c],
                    ),
                self.hmm.n_states == n,
                self.hmm.dim == dim,
                self.hmm.start@ == before.start,
                self.hmm.stop@ == before.stop,
                self.hmm.states@ == before.states,
                self.hmm.is_segmental@ == before.is_segmental,
                self.hmm.trans_total@ == old(self).hmm.trans_total@,
                self.hmm.start_total == old(self).hmm.start_total,
                self.hmm.stop_total == old(self).hmm.stop_total,
                self.state_map@ == before.state_map,
                self.merge_parent@ == before.merge_parent,
            decreases n - k,
        {
            let sum = add_cost(self.hmm.trans[lo * n + k], self.hmm.trans[hi * n + k]);
            self.hmm.trans.set(lo * n + k, sum);
            k = k + 1;
        }
        let ghost t1 = self.hmm.trans@;
        proof {
            assert forall|r: int, c: int| 0 <= r < n && 0 <= c < n implies #[trigger] t1[r * n + c]
                == if r == lo {
                add_cost_spec(t0[r * n + c], t0[hi * n + c])
            } else {
                t0[r * n + c]
            } by {
                lemma_cell_index(n as int, r, c);
                lemma_row_range(n as int, r, c, lo as int);
            }
        }
        // move all incoming connections from hi to lo
        let mut k: usize = 0;
        while k < n
            invariant
                k <= n,
                lo < hi < n,
                n * n <= usize::MAX,
                self.hmm.trans@.len() == n * n,
                t1.len() == n * n,
                forall|r: int, c: int|
                    0 <= r < n && 0 <= c < n ==> #[trigger] self.hmm.trans@[r * n + c] == if r < k
                        && c == lo {
                        add_cost_spec(t1[r * n + lo], t1[r * n + hi])
                    } else {
                        t1[r * n + c]
                    },
                self.hmm.n_states == n,
                self.hmm.dim == dim,
                self.hmm.start@ == before.start,
                self.hmm.stop@ == before.stop,
                self.hmm.states@ == before.states,
                self.hmm.is_segmental@ == before.is_segmental,
                self.hmm.trans_total@ == old(self).hmm.trans_total@,
                self.hmm.start_total == old(self).hmm.start_total,
                self.hmm.stop_total == old(self).hmm.stop_total,
                self.state_map@ == before.state_map,
                self.merge_parent@ == before.merge_parent,
            decreases n - k,
        {
            proof {
                lemma_cell_index(n as int, k as int, lo as int);
                lemma_cell_index(n as int, k as int, hi as int);
            }
            let ghost cur = self.hmm.trans@;
            let sum = add_cost(self.hmm.trans[k * n + lo], self.hmm.trans[k * n + hi]);
            self.hmm.trans.set(k * n + lo, sum);
            proof {
                assert forall|r: int, c: int| 0 <= r < n && 0 <= c < n implies #[trigger] self.hmm.trans@[r
                    * n + c] == if r < k + 1 && c == lo {
                    add_cost_spec(t1[r * n + lo], t1[r * n + hi])
                } else {
                    t1[r * n + c]
                } by {
                    lemma_cell_index(n as int, r, c);
                    assert(cur[r * n + c] == if r < k && c == lo {
                        add_cost_spec(t1[r * n + lo], t1[r * n + hi])
                    } else {
                        t1[r * n + c]
                    });
                }
            }
            k = k + 1;
        }
        let ghost t2 = self.hmm.trans@;
        // fix self transition, start and stop
        proof {
            lemma_cell_index(n as int, lo as int, lo as int);
        }
        let looped = add_cost(self.hmm.trans[lo * n + lo], 1);
        self.hmm.trans.set(lo * n + lo, looped);
        let started = add_cost(self.hmm.start[lo], self.hmm.start[hi]);
        self.hmm.start.set(lo, started);
        let stopped = add_cost(self.hmm.stop[lo], self.hmm.stop[hi]);
        self.hmm.stop.set(lo, stopped);
        proof {
            assert forall|idx: int| 0 <= idx < n * n implies #[trigger] self.hmm.trans@[idx]
                == merged_cell(t0, n as int, lo as int, hi as int, idx / (n as int), idx % (
                n as int)) by {
                lemma_index_cell(n as int, idx);
                let r = idx / (n as int);
                let c = idx % (n as int);
                lemma_cell_index(n as int, r, c);
                lemma_cell_index(n as int, r, lo as int);
                lemma_cell_index(n as int, r, hi as int);
                lemma_cell_index(n as int, hi as int, c);
                lemma_cell_index(n as int, hi as int, hi as int);
                lemma_cell_index(n as int, lo as int, lo as int);
                assert(t2[r * n + c] == if c == lo {
                    add_cost_spec(t1[r * n + lo], t1[r * n + hi])
                } else {
                    t1[r * n + c]
                });
                assert(t1[r * n + c] == if r == lo {
                    add_cost_spec(t0[r * n + c], t0[hi * n + c])
                } else {
                    t0[r * n + c]
                });
                assert(t1[r * n + hi] == if r == lo {
                    add_cost_spec(t0[r * n + hi], t0[hi * n + hi])
                } else {
                    t0[r * n + hi]
                });
                assert(t1[r * n + lo] == if r == lo {
                    add_cost_spec(t0[r * n + lo], t0[hi * n + lo])
                } else {
                    t0[r * n + lo]
                });
                if idx != lo * n + lo {
                    assert(!(r == lo && c == lo));
                }
            }
            lemma_product_bounds(lo as int, n - 1, dim as int);
            lemma_product_bounds(hi as int, n - 1, dim as int);
            assert((n - 1) * dim + dim == n * dim) by (nonlinear_arith);
            assert(lo * dim + dim <= hi * dim) by (nonlinear_arith)
                requires
                    lo + 1 <= hi,
                    dim >= 0,
            ;
        }
        let ghost s0 = self.hmm.states@;
        let mut d: usize = 0;
        while d < dim
            invariant
                d <= dim,
                lo < hi < n,
                self.hmm.states@.len() == n * dim,
                s0.len() == n * dim,
                n * dim <= usize::MAX,
                0 <= lo * dim,
                lo * dim + dim <= hi * dim,
                hi * dim + dim <= n * dim,
                forall|idx: int|
                    0 <= idx < n * dim && (idx < lo * dim || idx >= lo * dim + d)
                        ==> #[trigger] self.hmm.states@[idx] == s0[idx],
                forall|e: int|
                    0 <= e < d ==> #[trigger] self.hmm.states@[lo * dim + e] == average_spec(
                        s0[lo * dim + e],
                        s0[hi * dim + e],
                    ),
                self.hmm.n_states == n,
                self.hmm.dim == dim,
                self.hmm.trans@ == Seq::new(
                    before.trans.len(),
                    |idx: int|
                        merged_cell(t0, n as int, lo as int, hi as int, idx / (n as int), idx % (
                        n as int)),
                ),
                self.hmm.start@ == before.start.update(
                    lo as int,
                    add_cost_spec(before.start[lo as int], before.start[hi as int]),
                ),
                self.hmm.stop@ == before.stop.update(
                    lo as int,
                    add_cost_spec(before.stop[lo as int], before.stop[hi as int]),
                ),
                self.hmm.is_segmental@ == before.is_segmental,
                self.hmm.trans_total@ == old(self).hmm.trans_total@,
                self.hmm.start_total == old(self).hmm.start_total,
                self.hmm.stop_total == old(self).hmm.stop_total,
                self.state_map@ == before.state_map,
                self.merge_parent@ == before.merge_parent,
            decreases dim - d,
        {
            let mixed = average(self.hmm.states[lo * dim + d], self.hmm.states[hi * dim + d]);
            self.hmm.states.set(lo * dim + d, mixed);
            d = d + 1;
        }
        // change parent in union find
        let flag = self.hmm.is_segmental[lo] || from_alignment;
        self.hmm.is_segmental.set(lo, flag);
        self.merge_parent.set(hi, lo);
        proof {
            let target = absorb(before, lo as int, hi as int, from_alignment);
            assert(self.hmm.states@ =~= target.states) by {
                assert forall|idx: int| 0 <= idx < n * dim implies self.hmm.states@[idx]
                    == target.states[idx] by {
                    if lo * dim <= idx < lo * dim + dim {
                        let e = idx - lo * dim;
                        assert(self.hmm.states@[lo * dim + e] == average_spec(
                            s0[lo * dim + e],
                            s0[hi * dim + e],
                        ));
                    }
                }
            }
            assert(self.hmm.trans@ =~= target.trans);
            assert(self@ == target);
        }
    }

    /// The distance of every frame of a range to the frame before it.
    fn distances_of(s: &Slice) -> (r: Vec<u64>)
        requires
            s.wf(),
        ensures
            r@ == slice_distances(*s),
            r@.len() > 0,
    {
        let mut out: Vec<u64> = Vec::new();
        out.push(0);
        let len: usize = s.len();
        let mut t: usize = 1;
        while t < len
            invariant
                1 <= t,
                t <= len || len == 0,
                len == 0 ==> t == 1,
                len == s.stop - s.start,
                s.wf(),
                out@.len() == t,
                forall|u: int| 0 <= u < t ==> #[trigger] out@[u] == slice_distances(*s)[u],
            decreases len - t,
        {
            let d = euclidean(s.sequence.vec(s.start + t), s.sequence.vec(s.start + t - 1));
            out.push(d);
            t = t + 1;
        }
        assert(out@ =~= slice_distances(*s));
        out
    }

    /// The merges that one node of an alignment path yields.
    fn node_merges(
        x: usize,
        y: usize,
        slices: &Vec<Slice>,
        dist_i: &Vec<u64>,
        dist_j: &Vec<u64>,
        internal_th_i: u64,
        internal_th_j: u64,
        perc: u64,
        th: u64,
        node: AlignmentNode,
        distance: u64,
    ) -> (r: Vec<MergeOperation>)
        requires
            x < slices@.len(),
            y < slices@.len(),
            slices@[x as int].wf(),
            slices@[y as int].wf(),
            dist_i@ == slice_distances(slices@[x as int]),
            dist_j@ == slice_distances(slices@[y as int]),
            internal_th_i == percentile_spec(dist_i@, perc),
            internal_th_j == percentile_spec(dist_j@, perc),
        ensures
            r@ == node_candidates(
                x,
                y,
                slices@[x as int],
                slices@[y as int],
                perc,
                th,
                node,
                distance,
            ),
            within_slices(slices@, r@),
    {
        let mut operations: Vec<MergeOperation> = Vec::new();
        let len_i: usize = slices[x].len();
        let len_j: usize = slices[y].len();
        if node.i >= 1 && node.i <= len_i && node.j >= 1 && node.j <= len_j {
            let i: usize = node.i - 1;
            let j: usize = node.j - 1;
            // check for merge possibility in the sequence
            if i > 0 && dist_i[i] < internal_th_i {
                operations.push(
                    MergeOperation {
                        slice_i: x,
                        slice_j: x,
                        i,
                        j: i - 1,
                        dist: dist_i[i],
                        is_from_alignment: false,
                    },
                );
            }
            if j > 0 && dist_j[j] < internal_th_j {
                operations.push(
                    MergeOperation {
                        slice_i: y,
                        slice_j: y,
                        i: j,
                        j: j - 1,
                        dist: dist_j[j],
                        is_from_alignment: false,
                    },
                );
            }
            // we might merge on each match
            if node.label == AlignmentLabel::Match && distance < th {
                operations.push(
                    MergeOperation {
                        slice_i: x,
                        slice_j: y,
                        i,
                        j,
                        dist: distance,
                        is_from_alignment: true,
                    },
                );
            }
        }
        assert(operations@ =~= node_candidates(
            x,
            y,
            slices@[x as int],
            slices@[y as int],
            perc,
            th,
            node,
            distance,
        ));
        operations
    }

    /// Get all merges from one alignment
    pub fn merges_from_alignment(
        x: usize,
        y: usize,
        slices: &Vec<Slice>,
        path: &Vec<AlignmentNode>,
        perc: u64,
        th: u64,
        k: usize,
    ) -> (r: Vec<MergeOperation>)
        requires
            x < slices@.len(),
            y < slices@.len(),
            slices@[x as int].wf(),
            slices@[y as int].wf(),
            perc < PER_MILLE,
        ensures
            r@ == path_candidates(
                x,
                y,
                slices@[x as int],
                slices@[y as int],
                perc,
                th,
                k,
                path@,
                path@.len() as int,
            ),
            within_slices(slices@, r@),
    {
        let mut distances: Vec<u64> = Vec::new();
        let mut t: usize = 0;
        while t < path.len()
            invariant
                t <= path@.len(),
                distances@.len() == t,
                forall|u: int| 0 <= u < t ==> #[trigger] distances@[u] == path@[u].score,
            decreases path@.len() - t,
        {
            distances.push(path[t].score);
            t = t + 1;
        }
        assert(distances@ =~= path_scores(path@));
        let dist_i = ModelMerging::distances_of(&slices[x]);
        let dist_j = ModelMerging::distances_of(&slices[y]);
        let internal_th_i = percentile(&dist_i, perc);
        let internal_th_j = percentile(&dist_j, perc);
        let mut operations: Vec<MergeOperation> = Vec::new();
        let mut t: usize = 0;
        while t < path.len()
            invariant
                t <= path@.len(),
                x < slices@.len(),
                y < slices@.len(),
                slices@[x as int].wf(),
                slices@[y as int].wf(),
                perc < PER_MILLE,
                distances@ == path_scores(path@),
                dist_i@ == slice_distances(slices@[x as int]),
                dist_j@ == slice_distances(slices@[y as int]),
                internal_th_i == percentile_spec(dist_i@, perc),
                internal_th_j == percentile_spec(dist_j@, perc),
                operations@ == path_candidates(
                    x,
                    y,
                    slices@[x as int],
                    slices@[y as int],
                    perc,
                    th,
                    k,
                    path@,
                    t as int,
                ),
                within_slices(slices@, operations@),
            decreases path@.len() - t,
        {
            // use smoothed distances along alignment path
            let distance: u64 = if t < k {
                distances[t]
            } else if k == 0 {
                INFINITY
            } else {
                let all: &[u64] = distances.as_slice();
                mean(&all[t - k..t])
            };
            assert(distance == smoothed(path_scores(path@), k as int, t as int));
            let more = ModelMerging::node_merges(
                x,
                y,
                slices,
                &dist_i,
                &dist_j,
                internal_th_i,
                internal_th_j,
                perc,
                th,
                path[t],
                distance,
            );
            let ghost before = operations@;
            let mut u: usize = 0;
            while u < more.len()
                invariant
                    u <= more@.len(),
                    operations@ == before + more@.take(u as int),
                decreases more@.len() - u,
            {
                operations.push(more[u]);
                u = u + 1;
                assert(operations@ =~= before + more@.take(u as int));
            }
            assert(more@.take(more@.len() as int) =~= more@);
            t = t + 1;
        }
        operations
    }

    /// Get all merges from a set of alignments
    pub fn merges_from_alignments(
        paths: &Vec<(usize, usize, Vec<AlignmentNode>)>,
        slices: &Vec<Slice>,
        perc: u64,
        th: u64,
        k: usize,
    ) -> (r: Vec<MergeOperation>)
        requires
            perc < PER_MILLE,
            forall|p: int|
                0 <= p < paths@.len() ==> (#[trigger] paths@[p]).0 < slices@.len() && paths@[p].1
                    < slices@.len(),
            forall|m: int| 0 <= m < slices@.len() ==> (#[trigger] slices@[m]).wf(),
        ensures
            r@ == all_candidates(paths@, slices@, perc, th, k, paths@.len() as int),
            within_slices(slices@, r@),
    {
        let mut operations: Vec<MergeOperation> = Vec::new();
        let mut p: usize = 0;
        while p < paths.len()
            invariant
                p <= paths@.len(),
                perc < PER_MILLE,
                forall|q: int|
                    0 <= q < paths@.len() ==> (#[trigger] paths@[q]).0 < slices@.len()
                        && paths@[q].1 < slices@.len(),
                forall|m: int| 0 <= m < slices@.len() ==> (#[trigger] slices@[m]).wf(),
                operations@ == all_candidates(paths@, slices@, perc, th, k, p as int),
                within_slices(slices@, operations@),
            decreases paths@.len() - p,
        {
            let entry = &paths[p];
            let more = ModelMerging::merges_from_alignment(
                entry.0,
                entry.1,
                slices,
                &entry.2,
                perc,
                th,
                k,
            );
            let ghost before = operations@;
            let mut u: usize = 0;
            while u < more.len()
                invariant
                    u <= more@.len(),
                    operations@ == before + more@.take(u as int),
                decreases more@.len() - u,
            {
                operations.push(more[u]);
                u = u + 1;
                assert(operations@ =~= before + more@.take(u as int));
            }
            assert(more@.take(more@.len() as int) =~= more@);
            p = p + 1;
        }
        operations
    }

    /// Applies the candidates in their order: the roots of the two states
    /// of each are merged.
    pub fn apply_merges(&mut self, operations: &Vec<MergeOperation>)
        requires
            old(self).wf(),
            forall|t: int|
                0 <= t < operations@.len() ==> candidate_ok(
                    old(self).state_map@,
                    #[trigger] operations@[t],
                ),
        ensures
            final(self)@ == apply_all(old(self)@, operations@, operations@.len() as int),
            final(self).wf(),
            final(self).hmm.trans_total@ == old(self).hmm.trans_total@,
            final(self).hmm.start_total == old(self).hmm.start_total,
            final(self).hmm.stop_total == old(self).hmm.stop_total,
    {
        let mut t: usize = 0;
        while t < operations.len()
            invariant
                t <= operations@.len(),
                self.wf(),
                self.state_map@ == old(self).state_map@,
                self@ == apply_all(old(self)@, operations@, t as int),
                self.hmm.trans_total@ == old(self).hmm.trans_total@,
                self.hmm.start_total == old(self).hmm.start_total,
                self.hmm.stop_total == old(self).hmm.stop_total,
                forall|u: int|
                    0 <= u < operations@.len() ==> candidate_ok(
                        old(self).state_map@,
                        #[trigger] operations@[u],
                    ),
            decreases operations@.len() - t,
        {
            let op = operations[t];
            assert(candidate_ok(self.state_map@, op));
            let i: usize = self.state_map[op.slice_i] + op.i;
            let j: usize = self.state_map[op.slice_j] + op.j;
            assert(self.state_map@[op.slice_i + 1] <= self.state_map@.last());
            assert(self.state_map@[op.slice_j + 1] <= self.state_map@.last());
            let state_i = self.find_parent(i);
            let state_j = self.find_parent(j);
            self.merge(state_i, state_j, op.is_from_alignment);
            t = t + 1;
        }
    }

    /// Convert paths to merge operations, and apply them.
    /// A merge happens only for matches within a certain distance.
    /// All distances within a sequence are smoothed using a moving average
    /// of size k.
    pub fn merge_all(
        &mut self,
        paths: &Vec<(usize, usize, Vec<AlignmentNode>)>,
        slices: &Vec<Slice>,
        perc: u64,
        th: u64,
        k: usize,
    )
        requires
            old(self).wf(),
            members_are(old(self).state_map@, slices@),
            perc < PER_MILLE,
            forall|p: int|
                0 <= p < paths@.len() ==> (#[trigger] paths@[p]).0 < slices@.len() && paths@[p].1
                    < slices@.len(),
            forall|m: int| 0 <= m < slices@.len() ==> (#[trigger] slices@[m]).wf(),
        ensures
            final(self)@ == apply_all(
                old(self)@,
                all_candidates(paths@, slices@, perc, th, k, paths@.len() as int),
                all_candidates(paths@, slices@, perc, th, k, paths@.len() as int).len() as int,
            ),
            final(self).wf(),
            final(self).hmm.trans_total@ == old(self).hmm.trans_total@,
            final(self).hmm.start_total == old(self).hmm.start_total,
            final(self).hmm.stop_total == old(self).hmm.stop_total,
    {
        let operations = ModelMerging::merges_from_alignments(paths, slices, perc, th, k);
        proof {
            assert forall|t: int| 0 <= t < operations@.len() implies candidate_ok(
                self.state_map@,
                #[trigger] operations@[t],
            ) by {
                let op = operations@[t];
                assert(self.state_map@[op.slice_i as int] + slice_len(slices@[op.slice_i as int])
                    == self.state_map@[op.slice_i + 1]);
                assert(self.state_map@[op.slice_j as int] + slice_len(slices@[op.slice_j as int])
                    == self.state_map@[op.slice_j + 1]);
            }
        }
        self.apply_merges(&operations);
    }

    /// The first state of each member and, behind them, the number of states.
    fn offsets_of(slices: &Vec<Slice>) -> (r: Vec<usize>)
        requires
            forall|m: int| 0 <= m < slices@.len() ==> (#[trigger] slices@[m]).wf(),
            total_frames(slices@, slices@.len() as int) <= usize::MAX,
        ensures
            members_are(r@, slices@),
            offsets_wf(r@),
            forall|m: int| 0 <= m <= slices@.len() ==> #[trigger] r@[m] == total_frames(slices@, m),
    {
        let mut offsets: Vec<usize> = Vec::new();
        offsets.push(0);
        let mut total: usize = 0;
        let mut m: usize = 0;
        while m < slices.len()
            invariant
                m <= slices@.len(),
                forall|k: int| 0 <= k < slices@.len() ==> (#[trigger] slices@[k]).wf(),
                total_frames(slices@, slices@.len() as int) <= usize::MAX,
                offsets@.len() == m + 1,
                total == total_frames(slices@, m as int),
                forall|k: int| 0 <= k <= m ==> #[trigger] offsets@[k] == total_frames(slices@, k),
            decreases slices@.len() - m,
        {
            proof {
                lemma_total_frames_monotonic(slices@, m + 1, slices@.len() as int);
            }
            total = total + slices[m].len();
            offsets.push(total);
            m = m + 1;
        }
        proof {
            assert forall|a: int, b: int| 0 <= a <= b < offsets@.len() implies #[trigger] offsets@[a]
                <= #[trigger] offsets@[b] by {
                lemma_total_frames_monotonic(slices@, a, b);
            }
        }
        offsets
    }

    /// Create a simple chain of states one for each frame.
    pub fn from_slices(slices: &Vec<Slice>) -> (r: ModelMerging)
        requires
            slices@.len() > 0,
            forall|m: int| 0 <= m < slices@.len() ==> (#[trigger] slices@[m]).wf(),
            forall|m: int|
                0 <= m < slices@.len() ==> (#[trigger] slices@[m]).sequence.n_bins
                    == slices@[0].sequence.n_bins,
            total_frames(slices@, slices@.len() as int) * total_frames(
                slices@,
                slices@.len() as int,
            ) <= usize::MAX,
        ensures
            r.wf(),
            is_chain(r@, slices@),
            forall|s: int| 0 <= s < r.hmm.n_states ==> #[trigger] r.hmm.trans_total@[s] == 1,
            r.hmm.start_total == 1,
            r.hmm.stop_total == 1,
    {
        let dim: usize = slices[0].sequence.n_bins;
        let ghost total = total_frames(slices@, slices@.len() as int);
        proof {
            lemma_total_frames_monotonic(slices@, 0, slices@.len() as int);
            assert(total <= total * total) by (nonlinear_arith)
                requires
                    total >= 0,
            ;
        }
        let state_map = ModelMerging::offsets_of(slices);
        let n_states: usize = state_map[slices.len()];
        let mut states: Vec<i32> = Vec::new();
        let mut m: usize = 0;
        while m < slices.len()
            invariant
                m <= slices@.len(),
                forall|k: int| 0 <= k < slices@.len() ==> (#[trigger] slices@[k]).wf(),
                states@ == all_frames(slices@, m as int),
            decreases slices@.len() - m,
        {
            let spec = slices[m].extract();
            let ghost before = states@;
            let mut k: usize = 0;
            while k < spec.frames.len()
                invariant
                    k <= spec.frames@.len(),
                    states@ == before + spec.frames@.take(k as int),
                decreases spec.frames@.len() - k,
            {
                states.push(spec.frames[k]);
                k = k + 1;
                assert(states@ =~= before + spec.frames@.take(k as int));
            }
            assert(spec.frames@.take(spec.frames@.len() as int) =~= spec.frames@);
            m = m + 1;
        }
        proof {
            lemma_all_frames_len(slices@, dim as int, slices@.len() as int);
        }
        let mut first: Vec<bool> = Vec::new();
        let mut last: Vec<bool> = Vec::new();
        let mut m: usize = 0;
        while m < slices.len()
            invariant
                m <= slices@.len(),
                members_are(state_map@, slices@),
                offsets_wf(state_map@),
                forall|k: int| 0 <= k < slices@.len() ==> (#[trigger] slices@[k]).wf(),
                first@.len() == state_map@[m as int],
                last@.len() == state_map@[m as int],
                forall|s: int| 0 <= s < first@.len() ==> #[trigger] first@[s] == is_first(state_map@, s),
                forall|s: int| 0 <= s < last@.len() ==> #[trigger] last@[s] == is_last(state_map@, s),
            decreases slices@.len() - m,
        {
            let len: usize = slices[m].len();
            let mut t: usize = 0;
            while t < len
                invariant
                    t <= len,
                    m < slices@.len(),
                    len == slice_len(slices@[m as int]),
                    members_are(state_map@, slices@),
                    offsets_wf(state_map@),
                    first@.len() == state_map@[m as int] + t,
                    last@.len() == state_map@[m as int] + t,
                    forall|s: int|
                        0 <= s < first@.len() ==> #[trigger] first@[s] == is_first(state_map@, s),
                    forall|s: int|
                        0 <= s < last@.len() ==> #[trigger] last@[s] == is_last(state_map@, s),
                decreases len - t,
            {
                proof {
                    let s = state_map@[m as int] + t;
                    assert(state_map@[m as int] + len == state_map@[m + 1]);
                    if is_first(state_map@, s) {
                        let k = choose|k: int|
                            0 <= k < state_map@.len() - 1 && #[trigger] state_map@[k] == s && s
                                < state_map@[k + 1];
                        lemma_member_unique(state_map@, m as int, k, s);
                    }
                    if t == 0 {
                        assert(state_map@[m as int] == s && s < state_map@[m + 1]);
                    }
                    if is_last(state_map@, s) {
                        let k = choose|k: int|
                            0 <= k < state_map@.len() - 1 && #[trigger] state_map@[k] <= s && s + 1
                                == state_map@[k + 1];
                        lemma_member_unique(state_map@, m as int, k, s);
                    }
                    if t == len - 1 {
                        assert(state_map@[m as int] <= s && s + 1 == state_map@[m + 1]);
                    }
                }
                first.push(t == 0);
                last.push(t == len - 1);
                t = t + 1;
            }
            m = m + 1;
        }
        let mut start: Vec<u64> = Vec::new();
        let mut stop: Vec<u64> = Vec::new();
        let mut merge_parent: Vec<usize> = Vec::new();
        let mut is_segmental: Vec<bool> = Vec::new();
        let mut trans_total: Vec<u64> = Vec::new();
        let mut s: usize = 0;
        while s < n_states
            invariant
                s <= n_states,
                n_states == first@.len(),
                n_states == last@.len(),
                start@.len() == s,
                stop@.len() == s,
                merge_parent@.len() == s,
                is_segmental@.len() == s,
                trans_total@.len() == s,
                forall|u: int| 0 <= u < s ==> #[trigger] start@[u] == if first@[u] {
                    1u64
                } else {
                    0u64
                },
                forall|u: int| 0 <= u < s ==> #[trigger] stop@[u] == if last@[u] {
                    1u64
                } else {
                    0u64
                },
                forall|u: int| 0 <= u < s ==> #[trigger] merge_parent@[u] == u,
                forall|u: int| 0 <= u < s ==> #[trigger] is_segmental@[u] == false,
                forall|u: int| 0 <= u < s ==> #[trigger] trans_total@[u] == 1,
            decreases n_states - s,
        {
            start.push(if first[s] {
                1
            } else {
                0
            });
            stop.push(if last[s] {
                1
            } else {
                0
            });
            merge_parent.push(s);
            is_segmental.push(false);
            trans_total.push(1);
            s = s + 1;
        }
        let mut trans: Vec<u64> = Vec::new();
        let cells: usize = n_states * n_states;
        let mut c: usize = 0;
        while c < cells
            invariant
                c <= cells,
                trans@.len() == c,
                forall|u: int| 0 <= u < c ==> #[trigger] trans@[u] == 0,
            decreases cells - c,
        {
            trans.push(0);
            c = c + 1;
        }
        proof {
            assert forall|r: int, c: int|
                0 <= r < n_states && 0 <= c < n_states implies #[trigger] trans@[r * n_states + c]
                == 0 by {
                lemma_cell_index(n_states as int, r, c);
            }
        }
        let mut a: usize = 0;
        while a < n_states
            invariant
                a <= n_states,
                n_states == last@.len(),
                cells == n_states * n_states,
                trans@.len() == cells,
                forall|r: int, c: int|
                    0 <= r < n_states && 0 <= c < n_states ==> #[trigger] trans@[r * n_states + c]
                        == if r < a && c == r + 1 && !last@[r] {
                        1u64
                    } else {
                        0u64
                    },
            decreases n_states - a,
        {
            if !last[a] && a + 1 < n_states {
                proof {
                    lemma_cell_index(n_states as int, a as int, a + 1);
                }
                let ghost cur = trans@;
                trans.set(a * n_states + (a + 1), 1);
                proof {
                    assert forall|r: int, c: int|
                        0 <= r < n_states && 0 <= c < n_states implies #[trigger] trans@[r
                        * n_states + c] == if r < a + 1 && c == r + 1 && !last@[r] {
                        1u64
                    } else {
                        0u64
                    } by {
                        lemma_cell_index(n_states as int, r, c);
                        assert(cur[r * n_states + c] == if r < a && c == r + 1 && !last@[r] {
                            1u64
                        } else {
                            0u64
                        });
                    }
                }
            }
            a = a + 1;
        }
        proof {
            assert forall|r: int, c: int|
                0 <= r < n_states && 0 <= c < n_states implies #[trigger] trans@[r * n_states + c]
                == if c == r + 1 && !is_last(state_map@, r) {
                1u64
            } else {
                0u64
            } by {
                assert(last@[r] == is_last(state_map@, r));
            }
            assert(merge_parent@ =~= Seq::new(n_states as nat, |s: int| s as usize));
            assert(is_segmental@ =~= Seq::new(n_states as nat, |s: int| false));
            assert forall|s: int| 0 <= s < n_states implies #[trigger] start@[s] == if is_first(
                state_map@,
                s,
            ) {
                1u64
            } else {
                0u64
            } by {
                assert(first@[s] == is_first(state_map@, s));
            }
            assert forall|s: int| 0 <= s < n_states implies #[trigger] stop@[s] == if is_last(
                state_map@,
                s,
            ) {
                1u64
            } else {
                0u64
            } by {
                assert(last@[s] == is_last(state_map@, s));
            }
        }
        let hmm = HiddenMarkovModel {
            n_states,
            dim,
            trans,
            start,
            stop,
            states,
            is_segmental,
            trans_total,
            start_total: 1,
            stop_total: 1,
        };
        ModelMerging { hmm, state_map, merge_parent }
    }

    /// Shrink hidden markov model to smaller compressed version: the states
    /// that were not merged away are renumbered, and the transition, start
    /// and stop mass are normalised.
    pub fn shrink(&self) -> (r: HiddenMarkovModel)
        requires
            self.wf(),
        ensures
            is_shrunk(self@, &r),
            r.is_normalized(),
    {
        let big: usize = self.hmm.n_states;
        let dim: usize = self.hmm.dim;
        // map each state to a state in the compressed version
        let mut roots: Vec<usize> = Vec::new();
        let mut s: usize = 0;
        while s < big
            invariant
                s <= big,
                big == self.merge_parent@.len(),
                roots@ == roots_upto(self.merge_parent@, s as int),
                roots@.len() <= s,
                forall|a: int| 0 <= a < roots@.len() ==> #[trigger] roots@[a] < s,
            decreases big - s,
        {
            if self.merge_parent[s] == s {
                roots.push(s);
            }
            s = s + 1;
        }
        let n: usize = roots.len();
        proof {
            assert(self.hmm.trans.len() == self.hmm.trans@.len());
            assert(self.hmm.states.len() == self.hmm.states@.len());
            lemma_product_bounds(n as int, big as int, n as int);
            lemma_product_bounds(n as int, big as int, big as int);
            lemma_product_bounds(n as int, big as int, dim as int);
            assert(n * big == big * n) by (nonlinear_arith);
        }
        // copy the states
        let mut start: Vec<u64> = Vec::new();
        let mut stop: Vec<u64> = Vec::new();
        let mut is_segmental: Vec<bool> = Vec::new();
        let mut trans_total: Vec<u64> = Vec::new();
        let mut a: usize = 0;
        while a < n
            invariant
                a <= n,
                n == roots@.len(),
                self.wf(),
                big == self.hmm.n_states,
                forall|k: int| 0 <= k < roots@.len() ==> #[trigger] roots@[k] < big,
                start@.len() == a,
                stop@.len() == a,
                is_segmental@.len() == a,
                trans_total@.len() == a,
                forall|k: int| 0 <= k < a ==> #[trigger] start@[k] == self.hmm.start@[roots@[k] as int],
                forall|k: int| 0 <= k < a ==> #[trigger] stop@[k] == self.hmm.stop@[roots@[k] as int],
                forall|k: int|
                    0 <= k < a ==> #[trigger] is_segmental@[k] == self.hmm.is_segmental@[roots@[k] as int],
            decreases n - a,
        {
            let state_i: usize = roots[a];
            start.push(self.hmm.start[state_i]);
            stop.push(self.hmm.stop[state_i]);
            is_segmental.push(self.hmm.is_segmental[state_i]);
            trans_total.push(0);
            a = a + 1;
        }
        let mut states: Vec<i32> = Vec::new();
        let mut a: usize = 0;
        while a < n
            invariant
                a <= n,
                n == roots@.len(),
                self.wf(),
                big == self.hmm.n_states,
                dim == self.hmm.dim,
                big * dim <= usize::MAX,
                forall|k: int| 0 <= k < roots@.len() ==> #[trigger] roots@[k] < big,
                states@.len() == a * dim,
                forall|k: int, d: int|
                    0 <= k < a && 0 <= d < dim ==> #[trigger] states@[k * dim + d]
                        == self.hmm.states@[roots@[k] * dim + d],
            decreases n - a,
        {
            let state_i: usize = roots[a];
            let mut d: usize = 0;
            while d < dim
                invariant
                    d <= dim,
                    a < n,
                    n == roots@.len(),
                    self.wf(),
                    big == self.hmm.n_states,
                    dim == self.hmm.dim,
                    big * dim <= usize::MAX,
                    state_i == roots@[a as int],
                    state_i < big,
                    states@.len() == a * dim + d,
                    forall|k: int, e: int|
                        0 <= k && 0 <= e < dim && (k < a || (k == a && e < d))
                            ==> #[trigger] states@[k * dim + e] == self.hmm.states@[roots@[k] * dim
                            + e],
                decreases dim - d,
            {
                proof {
                    lemma_product_bounds(state_i as int, big - 1, dim as int);
                    assert((big - 1) * dim + dim == big * dim) by (nonlinear_arith);
                }
                let ghost cur = states@;
                states.push(self.hmm.states[state_i * dim + d]);
                proof {
                    assert forall|k: int, e: int|
                        0 <= k && 0 <= e < dim && (k < a || (k == a && e < d + 1))
                        implies #[trigger] states@[k * dim + e] == self.hmm.states@[roots@[k] * dim
                        + e] by {
                        if k < a || (k == a && e < d) {
                            lemma_cell_order(dim as int, k, e, a as int, d as int);
                            assert(cur[k * dim + e] == self.hmm.states@[roots@[k] * dim + e]);
                        }
                    }
                }
                d = d + 1;
            }
            proof {
                assert((a + 1) * dim == a * dim + dim) by (nonlinear_arith);
            }
            a = a + 1;
        }
        let mut trans: Vec<u64> = Vec::new();
        let mut a: usize = 0;
        while a < n
            invariant
                a <= n,
                n == roots@.len(),
                self.wf(),
                big == self.hmm.n_states,
                big * big <= usize::MAX,
                forall|k: int| 0 <= k < roots@.len() ==> #[trigger] roots@[k] < big,
                trans@.len() == a * n,
                forall|k: int, b: int|
                    0 <= k < a && 0 <= b < n ==> #[trigger] trans@[k * n + b]
                        == self.hmm.trans@[roots@[k] * big + roots@[b]],
            decreases n - a,
        {
            let state_i: usize = roots[a];
            let mut b: usize = 0;
            while b < n
                invariant
                    b <= n,
                    a < n,
                    n == roots@.len(),
                    self.wf(),
                    big == self.hmm.n_states,
                    big * big <= usize::MAX,
                    state_i == roots@[a as int],
                    forall|k: int| 0 <= k < roots@.len() ==> #[trigger] roots@[k] < big,
                    trans@.len() == a * n + b,
                    forall|k: int, e: int|
                        0 <= k && 0 <= e < n && (k < a || (k == a && e < b))
                            ==> #[trigger] trans@[k * n + e] == self.hmm.trans@[roots@[k] * big
                            + roots@[e]],
                decreases n - b,
            {
                let state_j: usize = roots[b];
                proof {
                    lemma_cell_index(big as int, state_i as int, state_j as int);
                }
                let ghost cur = trans@;
                trans.push(self.hmm.trans[state_i * big + state_j]);
                proof {
                    assert forall|k: int, e: int|
                        0 <= k && 0 <= e < n && (k < a || (k == a && e < b + 1))
                        implies #[trigger] trans@[k * n + e] == self.hmm.trans@[roots@[k] * big
                        + roots@[e]] by {
                        if k < a || (k == a && e < b) {
                            lemma_cell_order(n as int, k, e, a as int, b as int);
                            assert(cur[k * n + e] == self.hmm.trans@[roots@[k] * big + roots@[e]]);
                        }
                    }
                }
                b = b + 1;
            }
            proof {
                assert((a + 1) * n == a * n + n) by (nonlinear_arith);
            }
            a = a + 1;
        }
        let mut hmm = HiddenMarkovModel {
            n_states: n,
            dim,
            trans,
            start,
            stop,
            states,
            is_segmental,
            trans_total,
            start_total: 0,
            stop_total: 0,
        };
        hmm.normalize_transitions();
        hmm
    }

    /// The common threshold for merges across sequences: the percentile
    /// `perc` (in parts per thousand) of all local distances on all paths;
    /// none where the paths are empty.
    pub fn merge_threshold(paths: &Vec<(usize, usize, Vec<AlignmentNode>)>, perc: u64) -> (r:
        Option<u64>)
        requires
            perc < PER_MILLE,
        ensures
            all_scores(paths@, paths@.len() as int).len() == 0 ==> r is None,
            all_scores(paths@, paths@.len() as int).len() > 0 ==> r == Some(
                percentile_spec(all_scores(paths@, paths@.len() as int), perc),
            ),
    {
        let mut scores: Vec<u64> = Vec::new();
        let mut p: usize = 0;
        while p < paths.len()
            invariant
                p <= paths@.len(),
                scores@ == all_scores(paths@, p as int),
            decreases paths@.len() - p,
        {
            let path: &Vec<AlignmentNode> = &paths[p].2;
            let ghost before = scores@;
            let mut t: usize = 0;
            while t < path.len()
                invariant
                    t <= path@.len(),
                    scores@ == before + path_scores(path@).take(t as int),
                decreases path@.len() - t,
            {
                scores.push(path[t].score);
                t = t + 1;
                assert(scores@ =~= before + path_scores(path@).take(t as int));
            }
            assert(path_scores(path@).take(path@.len() as int) =~= path_scores(path@));
            p = p + 1;
        }
        if scores.len() == 0 {
            None
        } else {
            Some(percentile(&scores, perc))
        }
    }

    /// The warping paths between the members of a cluster: one for every
    /// pair of which the second member stands before the first.
    pub fn cluster_paths(members: &Vec<NDSequence>, params: &Discovery) -> (r: Vec<
        (usize, usize, Vec<AlignmentNode>),
    >)
        requires
            forall|i: int| 0 <= i < members@.len() ==> (#[trigger] members@[i]).n_bins > 0,
            forall|i: int, j: int|
                0 <= i < members@.len() && 0 <= j < members@.len() ==> (#[trigger] members@[i]).n_bins
                    == (#[trigger] members@[j]).n_bins,
        ensures
            are_cluster_paths(r@, members@, params),
    {
        let mut paths: Vec<(usize, usize, Vec<AlignmentNode>)> = Vec::new();
        let mut x: usize = 0;
        while x < members.len()
            invariant
                x <= members@.len(),
                forall|i: int| 0 <= i < members@.len() ==> (#[trigger] members@[i]).n_bins > 0,
                forall|i: int, j: int|
                    0 <= i < members@.len() && 0 <= j < members@.len() ==> (#[trigger] members@[i]).n_bins
                        == (#[trigger] members@[j]).n_bins,
                forall|k: int|
                    0 <= k < paths@.len() ==> {
                        let (a, b, path) = #[trigger] paths@[k];
                        &&& b < a < x
                        &&& path@ == alignment_path(
                            &members@[a as int],
                            &members@[b as int],
                            &params.alignment_params_spec(
                                longer(&members@[a as int], &members@[b as int]),
                            ),
                        )
                    },
                forall|k: int, l: int|
                    0 <= k < l < paths@.len() ==> (#[trigger] paths@[k]).0 < (#[trigger] paths@[l]).0
                        || (paths@[k].0 == paths@[l].0 && paths@[k].1 < paths@[l].1),
                forall|a: int, b: int| 0 <= b < a < x ==> #[trigger] has_pair(paths@, a, b),
            decreases members@.len() - x,
        {
            let mut y: usize = 0;
            while y < x
                invariant
                    y <= x < members@.len(),
                    forall|i: int| 0 <= i < members@.len() ==> (#[trigger] members@[i]).n_bins > 0,
                    forall|i: int, j: int|
                        0 <= i < members@.len() && 0 <= j < members@.len()
                            ==> (#[trigger] members@[i]).n_bins == (#[trigger] members@[j]).n_bins,
                    forall|k: int|
                        0 <= k < paths@.len() ==> {
                            let (a, b, path) = #[trigger] paths@[k];
                            &&& b < a
                            &&& (a < x || (a == x && b < y))
                            &&& path@ == alignment_path(
                                &members@[a as int],
                                &members@[b as int],
                                &params.alignment_params_spec(
                                    longer(&members@[a as int], &members@[b as int]),
                                ),
                            )
                        },
                    forall|k: int, l: int|
                        0 <= k < l < paths@.len() ==> (#[trigger] paths@[k]).0
                            < (#[trigger] paths@[l]).0 || (paths@[k].0 == paths@[l].0 && paths@[k].1
                            < paths@[l].1),
                    forall|a: int, b: int|
                        0 <= b < a && (a < x || (a == x && b < y)) ==> #[trigger] has_pair(
                            paths@,
                            a,
                            b,
                        ),
                decreases x - y,
            {
                let first: &NDSequence = &members[x];
                let second: &NDSequence = &members[y];
                assert(first.n_bins == second.n_bins);
                let len: usize = usize::max(first.len(), second.len());
                let path = warping_path(first, second, &params.alignment_params(len));
                let ghost before = paths@;
                paths.push((x, y, path));
                proof {
                    assert forall|a: int, b: int|
                        0 <= b < a && (a < x || (a == x && b < y + 1)) implies #[trigger] has_pair(
                        paths@,
                        a,
                        b,
                    ) by {
                        if a == x && b == y {
                            assert(paths@[before.len() as int].0 == a);
                        } else {
                            assert(has_pair(before, a, b));
                            let k = choose|k: int|
                                0 <= k < before.len() && (#[trigger] before[k]).0 == a && before[k].1
                                    == b;
                            assert(paths@[k].0 == a);
                        }
                    }
                }
                y = y + 1;
            }
            x = x + 1;
        }
        paths
    }

    /// The compact model of a cluster of whole sequences: the chain of the
    /// members is merged along the warping paths between them and shrunk.
    pub fn cluster_model(members: &Vec<NDSequence>, params: &Discovery) -> (r: HiddenMarkovModel)
        requires
            members@.len() > 0,
            forall|i: int| 0 <= i < members@.len() ==> (#[trigger] members@[i]).n_bins > 0,
            forall|i: int, j: int|
                0 <= i < members@.len() && 0 <= j < members@.len() ==> (#[trigger] members@[i]).n_bins
                    == (#[trigger] members@[j]).n_bins,
            params.merging_percentile < PER_MILLE,
            params.merging_internal_percentile < PER_MILLE,
            member_frames(members@, members@.len() as int) * member_frames(
                members@,
                members@.len() as int,
            ) <= usize::MAX,
        ensures
            is_cluster_model(members@, params, &r),
            r.is_normalized(),
    {
        let mut slices: Vec<Slice> = Vec::new();
        let mut i: usize = 0;
        while i < members.len()
            invariant
                i <= members@.len(),
                slices@.len() == i,
                forall|k: int| 0 <= k < members@.len() ==> (#[trigger] members@[k]).n_bins > 0,
                forall|k: int|
                    0 <= k < i ==> {
                        &&& (#[trigger] slices@[k]).start == 0
                        &&& slices@[k].stop == members@[k].frame_count()
                        &&& *slices@[k].sequence == members@[k]
                    },
            decreases members@.len() - i,
        {
            slices.push(Slice::new(0, members[i].len(), &members[i]));
            i = i + 1;
        }
        proof {
            assert(are_whole(slices@, members@));
            lemma_whole_frames(slices@, members@, members@.len() as int);
        }
        let paths = ModelMerging::cluster_paths(members, params);
        let mut merging = ModelMerging::from_slices(&slices);
        let ghost chain = merging@;
        match ModelMerging::merge_threshold(&paths, params.merging_percentile) {
            Some(th) => {
                merging.merge_all(
                    &paths,
                    &slices,
                    params.merging_internal_percentile,
                    th,
                    params.merging_moving,
                );
            },
            None => {},
        }
        let model = merging.shrink();
        proof {
            assert(is_chain(chain, slices@));
            assert(is_shrunk(merged_chain(chain, slices@, paths@, params), &model));
        }
        model
    }
}

} // verus!
