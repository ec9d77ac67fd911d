//! Banded dynamic time warping between two feature sequences.
//!
//! The table of an alignment is kept row by row; a row holds only the cells
//! that lie within the warping band, and a cell outside of it is absent.

use crate::numerics::{
    abs, add_cost, add_cost_spec, diff, euclidean, euclidean_spec, mul_cost, mul_cost_spec,
    INFINITY,
};
use crate::discovery::Discovery;
use crate::spectrogram::{lemma_frame_in_bounds, lemma_product_bounds, NDSequence};
use vstd::prelude::*;

verus! {

/// The edit that leads into a cell of the alignment table.
#[derive(Clone, Copy, Debug, PartialEq, Eq, Structural)]
pub enum AlignmentLabel {
    Match,
    Insertion,
    Deletion,
}

/// One cell of the alignment table.
#[derive(Clone, Copy, Debug)]
pub struct AlignmentNode {
    /// row of the cell: frame `i - 1` of the first sequence
    pub i: usize,
    /// column of the cell: frame `j - 1` of the second sequence
    pub j: usize,
    /// row of the predecessor
    pub prev_i: usize,
    /// column of the predecessor
    pub prev_j: usize,
    /// the edit taken from the predecessor
    pub label: AlignmentLabel,
    /// local distance between the two frames
    pub score: u64,
    /// cumulative cost of the best path into the cell
    pub cost: u64,
}

impl AlignmentNode {
    /// Coordinates of the cell.
    pub fn cur(&self) -> (r: (usize, usize))
        ensures
            r == (self.i, self.j),
    {
        (self.i, self.j)
    }

    /// Coordinates of the predecessor.
    pub fn prev(&self) -> (r: (usize, usize))
        ensures
            r == (self.prev_i, self.prev_j),
    {
        (self.prev_i, self.prev_j)
    }
}

/// Parameters of an alignment.
///
/// The warping band is the one described by Sakoe and Chiba. The insertion,
/// deletion and match penalties weigh the three edits differently.
#[derive(Clone, Debug)]
pub struct AlignmentParams {
    pub warping_band: usize,
    pub insertion_penalty: u64,
    pub deletion_penalty: u64,
    pub match_penalty: u64,
}

impl AlignmentParams {
    /// A band as wide as `len` and unit penalties.
    pub fn default(len: usize) -> (r: AlignmentParams)
        ensures
            r.warping_band == len,
            r.insertion_penalty == 1,
            r.deletion_penalty == 1,
            r.match_penalty == 1,
    {
        AlignmentParams {
            warping_band: len,
            insertion_penalty: 1,
            deletion_penalty: 1,
            match_penalty: 1,
        }
    }
}

/// How far a cell may lie from the diagonal.
pub open spec fn band_reach(n: int, m: int, band: int) -> int {
    let skew = if n > m {
        n - m
    } else {
        m - n
    };
    (if band > skew {
        band
    } else {
        skew
    }) + 2
}

/// The cell `(i, j)` is computed: it pairs two frames and lies within the band.
pub open spec fn in_band(n: int, m: int, band: int, i: int, j: int) -> bool {
    &&& 1 <= i <= n
    &&& 1 <= j <= m
    &&& i - j <= band_reach(n, m, band)
    &&& j - i <= band_reach(n, m, band)
}

/// The seed of every alignment, at `(0, 0)`.
pub open spec fn origin() -> AlignmentNode {
    AlignmentNode {
        i: 0,
        j: 0,
        prev_i: 0,
        prev_j: 0,
        label: AlignmentLabel::Match,
        score: 0,
        cost: 0,
    }
}

/// Local cost at `(i, j)`: the distance between frame `i - 1` of `x` and
/// frame `j - 1` of `y`.
pub open spec fn local_distance(x: &NDSequence, y: &NDSequence, i: int, j: int) -> u64 {
    euclidean_spec(x.frame(i - 1), y.frame(j - 1)) as u64
}

/// Cost of arriving from a predecessor; an absent predecessor is unreachable.
pub open spec fn candidate(pred: Option<AlignmentNode>, penalty: u64, local: u64) -> u64 {
    match pred {
        Some(p) => add_cost_spec(p.cost, mul_cost_spec(penalty, local)),
        None => INFINITY,
    }
}

/// The node chosen among the three candidates: the deletion if it is
/// strictly cheaper than both others, else the insertion if it is strictly
/// cheaper than both others, else the match.
pub open spec fn best_node(
    i: int,
    j: int,
    deletion: u64,
    insertion: u64,
    matching: u64,
    local: u64,
) -> AlignmentNode {
    if deletion < matching && deletion < insertion {
        AlignmentNode {
            i: i as usize,
            j: j as usize,
            prev_i: i as usize,
            prev_j: (j - 1) as usize,
            label: AlignmentLabel::Deletion,
            score: local,
            cost: deletion,
        }
    } else if insertion < matching && insertion < deletion {
        AlignmentNode {
            i: i as usize,
            j: j as usize,
            prev_i: (i - 1) as usize,
            prev_j: j as usize,
            label: AlignmentLabel::Insertion,
            score: local,
            cost: insertion,
        }
    } else {
        AlignmentNode {
            i: i as usize,
            j: j as usize,
            prev_i: (i - 1) as usize,
            prev_j: (j - 1) as usize,
            label: AlignmentLabel::Match,
            score: local,
            cost: matching,
        }
    }
}

/// The cell `(i, j)` of the alignment of `x` with `y`, or `None` outside the band.
pub open spec fn dp_node(
    x: &NDSequence,
    y: &NDSequence,
    p: &AlignmentParams,
    i: int,
    j: int,
) -> Option<AlignmentNode>
    decreases i + j,
{
    if i == 0 && j == 0 {
        Some(origin())
    } else if !in_band(x.frame_count() as int, y.frame_count() as int, p.warping_band as int, i, j) {
        None
    } else {
        let local = local_distance(x, y, i, j);
        Some(
            best_node(
                i,
                j,
                candidate(dp_node(x, y, p, i, j - 1), p.deletion_penalty, local),
                candidate(dp_node(x, y, p, i - 1, j), p.insertion_penalty, local),
                candidate(dp_node(x, y, p, i - 1, j - 1), p.match_penalty, local),
                local,
            ),
        )
    }
}

/// The score that a final cell gives to sequences of `n` and `m` frames:
/// its cumulative cost divided by `n + m`, and `INFINITY` where the cell is
/// absent, unreachable, or both sequences are empty.
pub open spec fn score_of(last: Option<AlignmentNode>, n: int, m: int) -> u64 {
    if n + m <= 0 {
        INFINITY
    } else {
        match last {
            Some(c) => if c.cost == INFINITY {
                INFINITY
            } else {
                (c.cost as int / (n + m)) as u64
            },
            None => INFINITY,
        }
    }
}

/// The normalised alignment score of `x` with `y`.
pub open spec fn alignment_score(x: &NDSequence, y: &NDSequence, p: &AlignmentParams) -> u64 {
    score_of(
        dp_node(x, y, p, x.frame_count() as int, y.frame_count() as int),
        x.frame_count() as int,
        y.frame_count() as int,
    )
}

/// A reachable cell other than the origin has a reachable predecessor next to it.
pub proof fn lemma_dp_linked(x: &NDSequence, y: &NDSequence, p: &AlignmentParams, i: int, j: int)
    requires
        dp_node(x, y, p, i, j) is Some,
        !(i == 0 && j == 0),
        dp_node(x, y, p, i, j)->0.cost < INFINITY,
    ensures
        ({
            let c = dp_node(x, y, p, i, j)->0;
            &&& c.prev_i + c.prev_j < i + j
            &&& c.prev_i <= i
            &&& c.prev_j <= j
            &&& dp_node(x, y, p, c.prev_i as int, c.prev_j as int) is Some
            &&& dp_node(x, y, p, c.prev_i as int, c.prev_j as int)->0.cost < INFINITY
        }),
{
    let n = x.frame_count() as int;
    let m = y.frame_count() as int;
    assert(in_band(n, m, p.warping_band as int, i, j));
}

/// Every cell of the table carries its own coordinates.
pub proof fn lemma_dp_coordinates(
    x: &NDSequence,
    y: &NDSequence,
    p: &AlignmentParams,
    i: int,
    j: int,
)
    requires
        dp_node(x, y, p, i, j) is Some,
    ensures
        dp_node(x, y, p, i, j)->0.i == i,
        dp_node(x, y, p, i, j)->0.j == j,
{
    if !(i == 0 && j == 0) {
        assert(in_band(x.frame_count() as int, y.frame_count() as int, p.warping_band as int, i, j));
    }
}

/// The local distance does not depend on which sequence comes first.
pub proof fn lemma_local_distance_symmetric(x: &NDSequence, y: &NDSequence, i: int, j: int)
    requires
        x.n_bins == y.n_bins,
        1 <= i <= x.frame_count(),
        1 <= j <= y.frame_count(),
    ensures
        local_distance(x, y, i, j) == local_distance(y, x, j, i),
{
    let a = x.frame(i - 1);
    let b = y.frame(j - 1);
    lemma_frame_in_bounds(x.frames@.len(), x.n_bins as nat, (i - 1) as nat);
    lemma_frame_in_bounds(y.frames@.len(), y.n_bins as nat, (j - 1) as nat);
    assert(a.len() == x.n_bins);
    assert(b.len() == y.n_bins);
    crate::numerics::lemma_squared_distance_symmetric(a, b, a.len() as int);
}

/// With equal insertion and deletion penalties, the cell `(i, j)` of the
/// alignment of `x` with `y` costs what the cell `(j, i)` of the alignment
/// of `y` with `x` costs, and the one is present where the other is.
pub proof fn lemma_dp_mirror(x: &NDSequence, y: &NDSequence, p: &AlignmentParams, i: int, j: int)
    requires
        p.insertion_penalty == p.deletion_penalty,
        x.n_bins == y.n_bins,
    ensures
        dp_node(x, y, p, i, j) is Some <==> dp_node(y, x, p, j, i) is Some,
        dp_node(x, y, p, i, j) is Some ==> dp_node(x, y, p, i, j)->0.cost == dp_node(
            y,
            x,
            p,
            j,
            i,
        )->0.cost,
    decreases i + j,
{
    let n = x.frame_count() as int;
    let m = y.frame_count() as int;
    if i == 0 && j == 0 {
    } else if !in_band(n, m, p.warping_band as int, i, j) {
        assert(!in_band(m, n, p.warping_band as int, j, i));
    } else {
        assert(in_band(m, n, p.warping_band as int, j, i));
        lemma_local_distance_symmetric(x, y, i, j);
        lemma_dp_mirror(x, y, p, i, j - 1);
        lemma_dp_mirror(x, y, p, i - 1, j);
        lemma_dp_mirror(x, y, p, i - 1, j - 1);
    }
}

/// Aligning `x` with `y` and `y` with `x` yields equal normalised scores,
/// provided that insertions and deletions are penalised alike. This holds
/// for every width of the band, and so for a band that covers the whole
/// table.
pub proof fn lemma_alignment_symmetric(x: &NDSequence, y: &NDSequence, p: &AlignmentParams)
    requires
        p.insertion_penalty == p.deletion_penalty,
        x.n_bins == y.n_bins,
    ensures
        alignment_score(x, y, p) == alignment_score(y, x, p),
{
    lemma_dp_mirror(x, y, p, x.frame_count() as int, y.frame_count() as int);
}

/// The alignment of two sequences.
#[derive(Debug)]
pub struct Alignment {
    /// number of frames of the first sequence
    pub n: usize,
    /// number of frames of the second sequence
    pub m: usize,
    /// the cells of each row that lie within the band
    pub rows: Vec<Vec<AlignmentNode>>,
    /// the column of the first cell of each row
    pub starts: Vec<usize>,
}

impl Alignment {
    /// The cell at `(i, j)`, if the table holds one.
    pub open spec fn node(&self, i: int, j: int) -> Option<AlignmentNode> {
        if 0 <= i < self.rows@.len() && i < self.starts@.len() && self.starts@[i] <= j
            < self.starts@[i] + self.rows@[i]@.len() {
            Some(self.rows@[i]@[j - self.starts@[i]])
        } else {
            None
        }
    }

    /// The cell at `(i, j)`, if there is one, carries its own coordinates,
    /// and if it is reachable and not the origin, its predecessor is a
    /// reachable cell closer to the origin.
    pub open spec fn linked_at(&self, i: int, j: int) -> bool {
        match self.node(i, j) {
            Some(c) => {
                &&& c.i == i
                &&& c.j == j
                &&& c.cost < INFINITY && !(i == 0 && j == 0) ==> {
                    &&& c.prev_i + c.prev_j < i + j
                    &&& self.node(c.prev_i as int, c.prev_j as int) is Some
                    &&& self.node(c.prev_i as int, c.prev_j as int)->0.cost < INFINITY
                }
            },
            None => true,
        }
    }

    /// The predecessor links of the table lead from every reachable cell
    /// back to the origin.
    pub open spec fn wf(&self) -> bool {
        &&& self.node(0, 0) == Some(origin())
        &&& forall|i: int, j: int| #[trigger] self.linked_at(i, j)
    }

    /// The table is the alignment of `x` with `y` under `p`.
    pub open spec fn is_alignment_of(
        &self,
        x: &NDSequence,
        y: &NDSequence,
        p: &AlignmentParams,
    ) -> bool {
        &&& self.n == x.frame_count()
        &&& self.m == y.frame_count()
        &&& forall|i: int, j: int| #[trigger] self.node(i, j) == dp_node(x, y, p, i, j)
    }

    /// The normalised score that the table holds.
    pub open spec fn score_spec(&self) -> u64 {
        score_of(self.node(self.n as int, self.m as int), self.n as int, self.m as int)
    }

    /// The reachable cells on the way from the origin to `(i, j)`, the
    /// origin left out.
    pub open spec fn path_to(&self, i: int, j: int) -> Seq<AlignmentNode>
        decreases i + j,
    {
        if i + j <= 0 {
            Seq::empty()
        } else {
            match self.node(i, j) {
                Some(c) => if c.cost < INFINITY && c.prev_i + c.prev_j < i + j {
                    self.path_to(c.prev_i as int, c.prev_j as int).push(c)
                } else {
                    Seq::empty()
                },
                None => Seq::empty(),
            }
        }
    }

    /// The warping path, from the first edit to the last; empty where the
    /// final cell was not reached.
    pub open spec fn path_spec(&self) -> Seq<AlignmentNode> {
        self.path_to(self.n as int, self.m as int)
    }

    /// An empty table: only the origin, with cost zero.
    pub fn new() -> (r: Alignment)
        ensures
            r.n == 0,
            r.m == 0,
            r.wf(),
            r.node(0, 0) == Some(origin()),
            forall|i: int, j: int| !(i == 0 && j == 0) ==> #[trigger] r.node(i, j) is None,
    {
        let mut first: Vec<AlignmentNode> = Vec::new();
        first.push(
            AlignmentNode {
                i: 0,
                j: 0,
                prev_i: 0,
                prev_j: 0,
                label: AlignmentLabel::Match,
                score: 0,
                cost: 0,
            },
        );
        let mut rows: Vec<Vec<AlignmentNode>> = Vec::new();
        rows.push(first);
        let mut starts: Vec<usize> = Vec::new();
        starts.push(0);
        Alignment { n: 0, m: 0, rows, starts }
    }

    /// The cell at `(i, j)`; a cell outside the band is absent.
    pub fn get(&self, i: usize, j: usize) -> (r: Option<AlignmentNode>)
        ensures
            r == self.node(i as int, j as int),
    {
        if i < self.rows.len() && i < self.starts.len() {
            let start: usize = self.starts[i];
            let row: &Vec<AlignmentNode> = &self.rows[i];
            if j >= start && j - start < row.len() {
                Some(row[j - start])
            } else {
                None
            }
        } else {
            None
        }
    }

    /// The best node at `(i, j)` given the three neighbouring cells and the
    /// local distance between the two frames.
    pub fn alignment_score(
        i: usize,
        j: usize,
        deletion: Option<AlignmentNode>,
        insertion: Option<AlignmentNode>,
        matching: Option<AlignmentNode>,
        local: u64,
        params: &AlignmentParams,
    ) -> (r: AlignmentNode)
        requires
            i >= 1,
            j >= 1,
        ensures
            r == best_node(
                i as int,
                j as int,
                candidate(deletion, params.deletion_penalty, local),
                candidate(insertion, params.insertion_penalty, local),
                candidate(matching, params.match_penalty, local),
                local,
            ),
    {
        let delete_score: u64 = match deletion {
            Some(p) => add_cost(p.cost, mul_cost(params.deletion_penalty, local)),
            None => INFINITY,
        };
        let insert_score: u64 = match insertion {
            Some(p) => add_cost(p.cost, mul_cost(params.insertion_penalty, local)),
            None => INFINITY,
        };
        let match_score: u64 = match matching {
            Some(p) => add_cost(p.cost, mul_cost(params.match_penalty, local)),
            None => INFINITY,
        };
        if delete_score < match_score && delete_score < insert_score {
            AlignmentNode {
                i,
                j,
                prev_i: i,
                prev_j: j - 1,
                label: AlignmentLabel::Deletion,
                score: local,
                cost: delete_score,
            }
        } else if insert_score < match_score && insert_score < delete_score {
            AlignmentNode {
                i,
                j,
                prev_i: i - 1,
                prev_j: j,
                label: AlignmentLabel::Insertion,
                score: local,
                cost: insert_score,
            }
        } else {
            AlignmentNode {
                i,
                j,
                prev_i: i - 1,
                prev_j: j - 1,
                label: AlignmentLabel::Match,
                score: local,
                cost: match_score,
            }
        }
    }

    /// Computes the dynamic time warping table of `x` with `y`, row by row,
    /// each row within the warping band only.
    pub fn construct_alignment(
        &mut self,
        x: &NDSequence,
        y: &NDSequence,
        params: &AlignmentParams,
    )
        requires
            x.n_bins > 0,
            x.n_bins == y.n_bins,
        ensures
            final(self).is_alignment_of(x, y, params),
            final(self).wf(),
    {
        let n: usize = x.len();
        let m: usize = y.len();
        let mut first: Vec<AlignmentNode> = Vec::new();
        first.push(
            AlignmentNode {
                i: 0,
                j: 0,
                prev_i: 0,
                prev_j: 0,
                label: AlignmentLabel::Match,
                score: 0,
                cost: 0,
            },
        );
        let mut rows: Vec<Vec<AlignmentNode>> = Vec::new();
        rows.push(first);
        let mut starts: Vec<usize> = Vec::new();
        starts.push(0);
        self.n = n;
        self.m = m;
        self.rows = rows;
        self.starts = starts;
        let w: usize = usize::max(params.warping_band, abs(n, m)).saturating_add(2);
        let ghost reach = band_reach(n as int, m as int, params.warping_band as int);
        assert(w as int == reach || (w == usize::MAX && reach > usize::MAX));
        let mut i: usize = 0;
        while i < n
            invariant
                i <= n,
                n == x.frame_count(),
                m == y.frame_count(),
                self.n == n,
                self.m == m,
                x.n_bins > 0,
                x.n_bins == y.n_bins,
                reach == band_reach(n as int, m as int, params.warping_band as int),
                w as int == reach || (w == usize::MAX && reach > usize::MAX),
                self.rows@.len() == i + 1,
                self.starts@.len() == i + 1,
                forall|a: int, b: int|
                    a <= i ==> #[trigger] self.node(a, b) == dp_node(x, y, params, a, b),
            decreases n - i,
        {
            i = i + 1;
            let lo: usize = usize::max(diff(i, w), 1);
            let hi: usize = usize::min(i.saturating_add(w), m);
            let width: usize = if hi >= lo {
                hi - lo + 1
            } else {
                0
            };
            proof {
                assert forall|b: int|
                    in_band(n as int, m as int, params.warping_band as int, i as int, b) <==> lo
                        <= b <= hi by {}
            }
            let mut row: Vec<AlignmentNode> = Vec::new();
            let mut count: usize = 0;
            while count < width
                invariant
                    1 <= i <= n,
                    n == x.frame_count(),
                    m == y.frame_count(),
                    x.n_bins > 0,
                    x.n_bins == y.n_bins,
                    count <= width,
                    lo >= 1,
                    width == (if hi >= lo {
                        hi - lo + 1
                    } else {
                        0
                    }),
                    hi <= m,
                    row@.len() == count,
                    self.rows@.len() == i,
                    self.starts@.len() == i,
                    forall|b: int|
                        in_band(n as int, m as int, params.warping_band as int, i as int, b) <==> lo
                            <= b <= hi,
                    forall|a: int, b: int|
                        a < i ==> #[trigger] self.node(a, b) == dp_node(x, y, params, a, b),
                    forall|k: int|
                        0 <= k < count ==> Some(#[trigger] row@[k]) == dp_node(
                            x,
                            y,
                            params,
                            i as int,
                            lo + k,
                        ),
                decreases width - count,
            {
                let j: usize = lo + count;
                let local: u64 = euclidean(x.vec(i - 1), y.vec(j - 1));
                let deletion: Option<AlignmentNode> = if count > 0 {
                    Some(row[count - 1])
                } else {
                    None
                };
                let insertion: Option<AlignmentNode> = self.get(i - 1, j);
                let matching: Option<AlignmentNode> = self.get(i - 1, j - 1);
                proof {
                    assert(self.node(i - 1, j as int) == dp_node(x, y, params, i - 1, j as int));
                    assert(self.node(i - 1, j - 1) == dp_node(x, y, params, i - 1, j - 1));
                    if count > 0 {
                        assert(Some(row@[count - 1]) == dp_node(
                            x,
                            y,
                            params,
                            i as int,
                            lo + (count - 1),
                        ));
                    } else {
                        assert(!in_band(
                            n as int,
                            m as int,
                            params.warping_band as int,
                            i as int,
                            j - 1,
                        ));
                    }
                    assert(deletion == dp_node(x, y, params, i as int, j - 1));
                    assert(in_band(n as int, m as int, params.warping_band as int, i as int, j as int));
                    assert(local == local_distance(x, y, i as int, j as int));
                }
                let node = Alignment::alignment_score(
                    i,
                    j,
                    deletion,
                    insertion,
                    matching,
                    local,
                    params,
                );
                row.push(node);
                count = count + 1;
            }
            let ghost before = *self;
            self.rows.push(row);
            self.starts.push(lo);
            proof {
                assert forall|a: int, b: int| a <= i implies #[trigger] self.node(a, b) == dp_node(
                    x,
                    y,
                    params,
                    a,
                    b,
                ) by {
                    if a < i {
                        assert(self.node(a, b) == before.node(a, b));
                    } else {
                        if lo <= b <= hi {
                            assert(Some(row@[b - lo]) == dp_node(x, y, params, i as int, lo + (b - lo)));
                        }
                    }
                }
            }
        }
        proof {
            assert forall|a: int, b: int| #[trigger] self.node(a, b) == dp_node(
                x,
                y,
                params,
                a,
                b,
            ) by {
                if a > n {
                    assert(!in_band(n as int, m as int, params.warping_band as int, a, b));
                }
            }
            assert forall|a: int, b: int| #[trigger] self.linked_at(a, b) by {
                assert(self.node(a, b) == dp_node(x, y, params, a, b));
                if self.node(a, b) is Some {
                    lemma_dp_coordinates(x, y, params, a, b);
                    let c = self.node(a, b)->0;
                    if c.cost < INFINITY && !(a == 0 && b == 0) {
                        lemma_dp_linked(x, y, params, a, b);
                        assert(self.node(c.prev_i as int, c.prev_j as int) == dp_node(
                            x,
                            y,
                            params,
                            c.prev_i as int,
                            c.prev_j as int,
                        ));
                    }
                }
            }
            assert(self.node(0, 0) == dp_node(x, y, params, 0, 0));
        }
    }

    /// The warping path: the edits from the origin to the final cell, the
    /// first edit first. It is empty where the final cell was not reached.
    pub fn path(&self) -> (r: Vec<AlignmentNode>)
        requires
            self.wf(),
        ensures
            r@ == self.path_spec(),
    {
        let mut reversed: Vec<AlignmentNode> = Vec::new();
        if self.n == 0 && self.m == 0 {
            return reversed;
        }
        let mut cur: AlignmentNode = match self.get(self.n, self.m) {
            Some(c) => c,
            None => {
                return reversed;
            },
        };
        if cur.cost == INFINITY {
            return reversed;
        }
        proof {
            assert(self.linked_at(self.n as int, self.m as int));
            assert(Seq::<AlignmentNode>::empty().reverse() =~= Seq::<AlignmentNode>::empty());
            assert(self.path_spec() =~= self.path_to(cur.i as int, cur.j as int)
                + reversed@.reverse());
        }
        loop
            invariant_except_break
                self.wf(),
                self.node(cur.i as int, cur.j as int) == Some(cur),
                cur.cost < INFINITY,
                cur.i + cur.j > 0,
                self.path_spec() == self.path_to(cur.i as int, cur.j as int) + reversed@.reverse(),
            ensures
                self.path_spec() == reversed@.reverse(),
            decreases cur.i + cur.j,
        {
            let ghost before = reversed@;
            reversed.push(cur);
            proof {
                assert(self.linked_at(cur.i as int, cur.j as int));
                assert(self.linked_at(cur.prev_i as int, cur.prev_j as int));
                assert(reversed@.reverse() =~= seq![cur] + before.reverse());
                assert(self.path_to(cur.i as int, cur.j as int) == self.path_to(
                    cur.prev_i as int,
                    cur.prev_j as int,
                ).push(cur));
                assert(self.path_to(cur.prev_i as int, cur.prev_j as int).push(cur)
                    + before.reverse() =~= self.path_to(cur.prev_i as int, cur.prev_j as int)
                    + reversed@.reverse());
            }
            if cur.prev_i == 0 && cur.prev_j == 0 {
                assert(self.path_to(0, 0) =~= Seq::empty());
                assert(Seq::<AlignmentNode>::empty() + reversed@.reverse() =~= reversed@.reverse());
                break;
            }
            let next = self.get(cur.prev_i, cur.prev_j);
            match next {
                Some(c) => {
                    cur = c;
                },
                None => {
                    assert(false);
                    break;
                },
            }
        }
        let mut out: Vec<AlignmentNode> = Vec::new();
        let mut k: usize = reversed.len();
        while k > 0
            invariant
                k <= reversed@.len(),
                out@.len() == reversed@.len() - k,
                forall|t: int| 0 <= t < out@.len() ==> out@[t] == reversed@[reversed@.len() - 1 - t],
            decreases k,
        {
            k = k - 1;
            out.push(reversed[k]);
        }
        assert(out@ =~= reversed@.reverse());
        out
    }

    /// Alignment score, normalised to account for length variations.
    pub fn score(&self) -> (r: u64)
        ensures
            r == self.score_spec(),
    {
        if self.m == 0 && self.n == 0 {
            INFINITY
        } else {
            match self.get(self.n, self.m) {
                Some(c) => {
                    if c.cost == INFINITY {
                        INFINITY
                    } else {
                        let total: u128 = self.n as u128 + self.m as u128;
                        (c.cost as u128 / total) as u64
                    }
                },
                None => INFINITY,
            }
        }
    }
}

/// The reachable cells on the way from the origin to `(i, j)` in the
/// alignment of `x` with `y`, the origin left out.
pub open spec fn dp_path(
    x: &NDSequence,
    y: &NDSequence,
    p: &AlignmentParams,
    i: int,
    j: int,
) -> Seq<AlignmentNode>
    decreases i + j,
{
    if i + j <= 0 {
        Seq::empty()
    } else {
        match dp_node(x, y, p, i, j) {
            Some(c) => if c.cost < INFINITY && c.prev_i + c.prev_j < i + j {
                dp_path(x, y, p, c.prev_i as int, c.prev_j as int).push(c)
            } else {
                Seq::empty()
            },
            None => Seq::empty(),
        }
    }
}

/// The warping path of `x` with `y`: the edits from the origin to the
/// final cell, the first edit first; empty where the final cell cannot be
/// reached.
pub open spec fn alignment_path(x: &NDSequence, y: &NDSequence, p: &AlignmentParams) -> Seq<
    AlignmentNode,
> {
    dp_path(x, y, p, x.frame_count() as int, y.frame_count() as int)
}

/// The path that the table of an alignment holds is the path of the
/// alignment.
pub proof fn lemma_table_path(
    a: &Alignment,
    x: &NDSequence,
    y: &NDSequence,
    p: &AlignmentParams,
    i: int,
    j: int,
)
    requires
        a.is_alignment_of(x, y, p),
    ensures
        a.path_to(i, j) == dp_path(x, y, p, i, j),
    decreases i + j,
{
    if i + j > 0 {
        assert(a.node(i, j) == dp_node(x, y, p, i, j));
        match a.node(i, j) {
            Some(c) => {
                if c.cost < INFINITY && c.prev_i + c.prev_j < i + j {
                    lemma_table_path(a, x, y, p, c.prev_i as int, c.prev_j as int);
                }
            },
            None => {},
        }
    }
}

/// The normalised score of the alignment of `x` with `y`.
pub fn distance(x: &NDSequence, y: &NDSequence, params: &AlignmentParams) -> (r: u64)
    requires
        x.n_bins > 0,
        x.n_bins == y.n_bins,
    ensures
        r == alignment_score(x, y, params),
{
    let mut alignment = Alignment::new();
    alignment.construct_alignment(x, y, params);
    assert(alignment.node(alignment.n as int, alignment.m as int) == dp_node(
        x,
        y,
        params,
        alignment.n as int,
        alignment.m as int,
    ));
    alignment.score()
}

/// The warping path of the alignment of `x` with `y`.
pub fn warping_path(x: &NDSequence, y: &NDSequence, params: &AlignmentParams) -> (r: Vec<
    AlignmentNode,
>)
    requires
        x.n_bins > 0,
        x.n_bins == y.n_bins,
    ensures
        r@ == alignment_path(x, y, params),
{
    let mut alignment = Alignment::new();
    alignment.construct_alignment(x, y, params);
    proof {
        lemma_table_path(&alignment, x, y, params, alignment.n as int, alignment.m as int);
    }
    alignment.path()
}

/// The score of the alignment of the sequences `i` and `j` of a corpus,
/// with a band in proportion to the longer of the two; zero on the
/// diagonal, which is unused.
pub open spec fn pair_score(data: Seq<NDSequence>, params: &Discovery, i: int, j: int) -> u64 {
    if i == j {
        0
    } else {
        let len = if data[i].frame_count() >= data[j].frame_count() {
            data[i].frame_count()
        } else {
            data[j].frame_count()
        };
        alignment_score(&data[i], &data[j], &params.alignment_params_spec(len as usize))
    }
}

/// Number of rows that one worker is given.
pub open spec fn batch_size_spec(n: usize, workers: usize) -> int {
    n as int / workers as int + 1
}

/// The first row of a batch, and the row behind its last.
pub open spec fn batch_bounds_spec(n: usize, workers: usize, batch: usize) -> (int, int) {
    let size = batch_size_spec(n, workers);
    let start = if batch * size < n {
        batch * size
    } else {
        n as int
    };
    let stop = if (batch + 1) * size < n {
        (batch + 1) * size
    } else {
        n as int
    };
    (start, stop)
}

/// The batches of all workers together reach the last row.
pub proof fn lemma_batches_cover(n: usize, workers: usize)
    requires
        workers > 0,
    ensures
        batch_bounds_spec(n, workers, 0).0 == 0,
        batch_bounds_spec(n, workers, workers).0 == n,
        forall|batch: usize|
            batch < workers ==> (#[trigger] batch_bounds_spec(n, workers, batch)).1
                == batch_bounds_spec(n, workers, (batch + 1) as usize).0,
{
    let size = batch_size_spec(n, workers);
    let w = workers as int;
    let q = n as int / w;
    vstd::arithmetic::div_mod::lemma_fundamental_div_mod(n as int, w);
    assert(n < w * size) by (nonlinear_arith)
        requires
            n == w * q + (n as int % w),
            (n as int % w) < w,
            size == q + 1,
    ;
    assert(0 * size == 0) by (nonlinear_arith);
}

/// Every row belongs to exactly one batch: to the one whose number is the
/// row divided by the size of a batch, and to no other.
pub proof fn lemma_batches_partition(n: usize, workers: usize, row: int)
    requires
        workers > 0,
        0 <= row < n,
    ensures
        0 <= row / batch_size_spec(n, workers) < workers,
        forall|batch: usize|
            batch < workers ==> ((#[trigger] batch_bounds_spec(n, workers, batch)).0 <= row
                < batch_bounds_spec(n, workers, batch).1 <==> batch == row / batch_size_spec(
                n,
                workers,
            )),
{
    let size = batch_size_spec(n, workers);
    let w = workers as int;
    let q = n as int / w;
    vstd::arithmetic::div_mod::lemma_fundamental_div_mod(n as int, w);
    assert(n < w * size) by (nonlinear_arith)
        requires
            n == w * q + (n as int % w),
            (n as int % w) < w,
            size == q + 1,
    ;
    assert(q >= 0) by (nonlinear_arith)
        requires
            n == w * q + (n as int % w),
            (n as int % w) < w,
            n >= 0,
            w > 0,
    ;
    let mine = row / size;
    vstd::arithmetic::div_mod::lemma_fundamental_div_mod(row, size);
    assert(mine >= 0 && mine < w) by (nonlinear_arith)
        requires
            row == size * mine + row % size,
            0 <= row % size < size,
            0 <= row < w * size,
            size > 0,
            w > 0,
    ;
    assert forall|batch: usize| batch < workers implies ((#[trigger] batch_bounds_spec(
        n,
        workers,
        batch,
    )).0 <= row < batch_bounds_spec(n, workers, batch).1 <==> batch == mine) by {
        let b = batch as int;
        assert((b + 1) * size == b * size + size) by (nonlinear_arith);
        if b == mine {
            assert(size * mine == b * size) by (nonlinear_arith)
                requires
                    b == mine,
            ;
        } else if b < mine {
            assert((b + 1) * size <= size * mine) by (nonlinear_arith)
                requires
                    b + 1 <= mine,
                    size > 0,
            ;
        } else {
            assert(size * mine + size <= b * size) by (nonlinear_arith)
                requires
                    mine + 1 <= b,
                    size > 0,
            ;
        }
    }
}

/// Where the entry `k` of the rows from `start` on lies in the matrix.
pub open spec fn stored_at(start: usize, n: nat, k: int) -> int {
    start * n + k
}

/// Aligns all sequences with one another and saves the scores in a flat
/// matrix
pub struct AlignmentWorkers {
    pub data: Vec<NDSequence>,
    /// the score of sequence `i` against sequence `j` at `i * n + j`
    pub result: Vec<u64>,
}

impl AlignmentWorkers {
    /// The sequences can be aligned with one another: they have features,
    /// all as many, and the matrix has a cell for every pair.
    pub open spec fn wf(&self) -> bool {
        &&& self.result@.len() == self.data@.len() * self.data@.len()
        &&& forall|i: int| 0 <= i < self.data@.len() ==> (#[trigger] self.data@[i]).n_bins > 0
        &&& forall|i: int, j: int|
            0 <= i < self.data@.len() && 0 <= j < self.data@.len() ==> (#[trigger] self.data@[i]).n_bins
                == (#[trigger] self.data@[j]).n_bins
    }

    /// The sequences with a matrix of zeros.
    pub fn new(data: Vec<NDSequence>) -> (r: AlignmentWorkers)
        requires
            data@.len() * data@.len() <= usize::MAX,
        ensures
            r.data@ == data@,
            r.result@.len() == data@.len() * data@.len(),
            forall|k: int| 0 <= k < r.result@.len() ==> #[trigger] r.result@[k] == 0,
    {
        let n: usize = data.len();
        let cells: usize = n * n;
        let mut alignments: Vec<u64> = Vec::new();
        let mut k: usize = 0;
        while k < cells
            invariant
                k <= cells,
                alignments@.len() == k,
                forall|u: int| 0 <= u < k ==> #[trigger] alignments@[u] == 0,
            decreases cells - k,
        {
            alignments.push(0);
            k = k + 1;
        }
        AlignmentWorkers { data, result: alignments }
    }

    /// The rows that the worker `batch` of `workers` computes: from the
    /// first of the pair up to, but without, the second.
    pub fn batch_bounds(n: usize, workers: usize, batch: usize) -> (r: (usize, usize))
        requires
            workers > 0,
        ensures
            r.0 == batch_bounds_spec(n, workers, batch).0,
            r.1 == batch_bounds_spec(n, workers, batch).1,
            r.0 <= r.1 <= n,
    {
        let size: u128 = (n / workers) as u128 + 1;
        proof {
            assert(0 <= batch * size <= 0xffff_ffff_ffff_ffff * 0x1_0000_0000_0000_0000)
                by (nonlinear_arith)
                requires
                    0 <= batch <= 0xffff_ffff_ffff_ffff,
                    0 < size <= 0x1_0000_0000_0000_0000,
            ;
            assert((batch + 1) * size == batch * size + size) by (nonlinear_arith);
        }
        let first: u128 = batch as u128 * size;
        let start: usize = if first < n as u128 {
            first as usize
        } else {
            n
        };
        let stop: usize = match first.checked_add(size) {
            Some(behind) => if behind < n as u128 {
                behind as usize
            } else {
                n
            },
            None => n,
        };
        (start, stop)
    }

    /// The scores of one sequence against all sequences.
    pub fn align_row(&self, i: usize, params: &Discovery) -> (r: Vec<u64>)
        requires
            self.wf(),
            i < self.data@.len(),
        ensures
            r@.len() == self.data@.len(),
            forall|j: int|
                0 <= j < self.data@.len() ==> #[trigger] r@[j] == pair_score(
                    self.data@,
                    params,
                    i as int,
                    j,
                ),
    {
        let n: usize = self.data.len();
        let mut row: Vec<u64> = Vec::new();
        let mut j: usize = 0;
        while j < n
            invariant
                j <= n,
                n == self.data@.len(),
                i < n,
                self.wf(),
                row@.len() == j,
                forall|k: int|
                    0 <= k < j ==> #[trigger] row@[k] == pair_score(self.data@, params, i as int, k),
            decreases n - j,
        {
            if i != j {
                let x: &NDSequence = &self.data[i];
                let y: &NDSequence = &self.data[j];
                assert(x.n_bins == y.n_bins);
                let len: usize = usize::max(x.len(), y.len());
                let params = params.alignment_params(len);
                row.push(distance(x, y, &params));
            } else {
                row.push(0);
            }
            j = j + 1;
        }
        row
    }

    /// The scores of the sequences from `start` up to `stop` against all
    /// sequences, row by row: what one worker contributes.
    pub fn align_rows(&self, start: usize, stop: usize, params: &Discovery) -> (r: Vec<u64>)
        requires
            self.wf(),
            start <= stop <= self.data@.len(),
        ensures
            r@.len() == (stop - start) * self.data@.len(),
            forall|i: int, j: int|
                start <= i < stop && 0 <= j < self.data@.len() ==> #[trigger] r@[(i - start)
                    * self.data@.len() + j] == pair_score(self.data@, params, i, j),
    {
        let n: usize = self.data.len();
        let mut out: Vec<u64> = Vec::new();
        let mut i: usize = start;
        assert((start - start) * n == 0) by (nonlinear_arith);
        while i < stop
            invariant
                start <= i <= stop <= n,
                n == self.data@.len(),
                self.wf(),
                out@.len() == (i - start) * n,
                forall|a: int, b: int|
                    start <= a < i && 0 <= b < n ==> #[trigger] out@[(a - start) * n + b]
                        == pair_score(self.data@, params, a, b),
            decreases stop - i,
        {
            let row = self.align_row(i, params);
            let ghost before = out@;
            let mut j: usize = 0;
            while j < n
                invariant
                    j <= n,
                    n == row@.len(),
                    out@ == before + row@.take(j as int),
                decreases n - j,
            {
                out.push(row[j]);
                j = j + 1;
                assert(out@ =~= before + row@.take(j as int));
            }
            proof {
                assert(row@.take(n as int) =~= row@);
                assert((i + 1 - start) * n == (i - start) * n + n) by (nonlinear_arith);
                assert forall|a: int, b: int| start <= a < i + 1 && 0 <= b < n implies #[trigger] out@[(
                a - start) * n + b] == pair_score(self.data@, params, a, b) by {
                    if a < i {
                        crate::aligned_model_merging::lemma_cell_order(
                            n as int,
                            a - start,
                            b,
                            i - start,
                            0,
                        );
                        assert(before[(a - start) * n + b] == pair_score(self.data@, params, a, b));
                    } else {
                        assert(out@[(i - start) * n + b] == row@[b]);
                    }
                }
            }
            i = i + 1;
        }
        out
    }

    /// Puts the rows that a worker computed into the matrix.
    pub fn store_rows(&mut self, start: usize, rows: &Vec<u64>)
        requires
            old(self).result@.len() == old(self).data@.len() * old(self).data@.len(),
            start * old(self).data@.len() + rows@.len() <= old(self).result@.len(),
        ensures
            final(self).data@ == old(self).data@,
            final(self).result@.len() == old(self).result@.len(),
            forall|k: int|
                0 <= k < rows@.len() ==> #[trigger] final(self).result@[stored_at(
                    start,
                    old(self).data@.len(),
                    k,
                )] == rows@[k],
            forall|k: int|
                0 <= k < old(self).result@.len() && !(0 <= k - start * old(self).data@.len()
                    < rows@.len()) ==> #[trigger] final(self).result@[k] == old(self).result@[k],
    {
        let n: usize = self.data.len();
        proof {
            lemma_product_bounds(start as int, start as int, n as int);
            assert(self.result.len() == self.result@.len());
        }
        let base: usize = start * n;
        let mut k: usize = 0;
        while k < rows.len()
            invariant
                k <= rows@.len(),
                self.data@ == old(self).data@,
                self.result@.len() == old(self).result@.len(),
                base + rows@.len() <= self.result@.len(),
                self.result@.len() <= usize::MAX,
                forall|u: int| 0 <= u < k ==> #[trigger] self.result@[base + u] == rows@[u],
                forall|u: int|
                    0 <= u < self.result@.len() && (u < base || u >= base + k)
                        ==> #[trigger] self.result@[u] == old(self).result@[u],
            decreases rows@.len() - k,
        {
            self.result.set(base + k, rows[k]);
            k = k + 1;
        }
    }

    /// The actual alignment job, batch by batch as `alignment_workers`
    /// workers share it: every sequence is aligned with every other.
    pub fn align_all(&mut self, params: &Discovery)
        requires
            old(self).wf(),
            params.alignment_workers > 0,
        ensures
            final(self).data@ == old(self).data@,
            final(self).result@.len() == old(self).result@.len(),
            forall|i: int, j: int|
                0 <= i < old(self).data@.len() && 0 <= j < old(self).data@.len() && i != j
                    ==> #[trigger] final(self).result@[i * old(self).data@.len() + j]
                    == pair_score(old(self).data@, params, i, j),
            ({
                let n = old(self).data@.len() as int;
                forall|i: int|
                    0 <= i < n ==> #[trigger] final(self).result@[i * n + i] == old(
                        self,
                    ).result@[i * n + i]
            }),
    {
        let n: usize = self.data.len();
        let workers: usize = params.alignment_workers;
        let mut batch: usize = 0;
        proof {
            lemma_batches_cover(n, workers);
        }
        while batch < workers
            invariant
                batch <= workers,
                workers > 0,
                n == self.data@.len(),
                self.wf(),
                self.data@ == old(self).data@,
                self.result@.len() == old(self).result@.len(),
                forall|b: usize|
                    b < workers ==> (#[trigger] batch_bounds_spec(n, workers, b)).1
                        == batch_bounds_spec(n, workers, (b + 1) as usize).0,
                forall|a: int|
                    0 <= a < n ==> #[trigger] self.result@[a * n + a] == old(self).result@[a * n
                        + a],
                forall|a: int, b: int|
                    0 <= a < batch_bounds_spec(n, workers, batch).0 && 0 <= b < n && a != b
                        ==> #[trigger] self.result@[a * n + b] == pair_score(
                        self.data@,
                        params,
                        a,
                        b,
                    ),
            decreases workers - batch,
        {
            let (start, stop) = AlignmentWorkers::batch_bounds(n, workers, batch);
            let mut i: usize = start;
            while i < stop
                invariant
                    start <= i <= stop <= n,
                    n == self.data@.len(),
                    self.wf(),
                    self.data@ == old(self).data@,
                    self.result@.len() == old(self).result@.len(),
                    forall|a: int|
                        0 <= a < n ==> #[trigger] self.result@[a * n + a] == old(self).result@[a
                            * n + a],
                    forall|a: int, b: int|
                        0 <= a < i && 0 <= b < n && a != b ==> #[trigger] self.result@[a * n + b]
                            == pair_score(self.data@, params, a, b),
                decreases stop - i,
            {
                let row = self.align_row(i, params);
                let ghost before = self.result@;
                proof {
                    assert(self.result.len() == self.result@.len());
                    assert(0 <= i * n && i * n + n <= n * n) by (nonlinear_arith)
                        requires
                            0 <= i,
                            i + 1 <= n,
                    ;
                }
                let mut j: usize = 0;
                while j < n
                    invariant
                        j <= n,
                        i < n,
                        n == self.data@.len(),
                        n == row@.len(),
                        self.wf(),
                        self.data@ == old(self).data@,
                        self.result@.len() == old(self).result@.len(),
                        self.result@.len() == n * n,
                        n * n <= usize::MAX,
                        0 <= i * n,
                        i * n + n <= n * n,
                        forall|u: int|
                            0 <= u < n * n && (u < i * n || u >= i * n + j)
                                ==> #[trigger] self.result@[u] == before[u],
                        forall|b: int|
                            0 <= b < j && b != i ==> #[trigger] self.result@[i * n + b] == row@[b],
                        self.result@[i * n + i] == before[i * n + i],
                    decreases n - j,
                {
                    if i != j {
                        self.result.set(i * n + j, row[j]);
                    }
                    j = j + 1;
                }
                proof {
                    assert forall|a: int| 0 <= a < n implies #[trigger] self.result@[a * n + a] == old(
                        self,
                    ).result@[a * n + a] by {
                        crate::aligned_model_merging::lemma_cell_index(n as int, a, a);
                        crate::aligned_model_merging::lemma_row_range(n as int, a, a, i as int);
                        assert(before[a * n + a] == old(self).result@[a * n + a]);
                    }
                    assert forall|a: int, b: int| 0 <= a < i + 1 && 0 <= b < n && a != b implies #[trigger] self.result@[a
                        * n + b] == pair_score(self.data@, params, a, b) by {
                        crate::aligned_model_merging::lemma_cell_index(n as int, a, b);
                        if a < i {
                            crate::aligned_model_merging::lemma_row_range(n as int, a, b, i as int);
                            assert(before[a * n + b] == pair_score(self.data@, params, a, b));
                        }
                    }
                }
                i = i + 1;
            }
            batch = batch + 1;
        }
    }
}

} // verus!
