//! Agglomerative clustering with average linkage.
//!
//! The clusters form a forest over the ids `0 .. 2N - 1`: the `N` instances
//! are its leaves, and every merge adds one node above the two roots that
//! it joins.

use crate::numerics::{add_cost, cap, percentile, percentile_spec, INFINITY, PER_MILLE};
use crate::spectrogram::lemma_product_bounds;
use vstd::prelude::*;

verus! {

/// Defines what we merge against what
#[derive(Clone, Copy, Debug, PartialEq, Eq, Structural)]
pub enum Merge {
    Sequence2Sequence,
    Sequence2Cluster,
    Cluster2Sequence,
    Cluster2Cluster,
}

/// Defines which two clusters were merged into which new cluster
#[derive(Clone, Copy, Debug)]
pub struct ClusteringOperation {
    pub merge_i: usize,
    pub merge_j: usize,
    pub into: usize,
    pub distance: u64,
    pub operation: Merge,
}

/// Every parent pointer stays where it is or points further up.
pub open spec fn forest_wf(parents: Seq<usize>) -> bool {
    forall|p: int| 0 <= p < parents.len() ==> p <= #[trigger] parents[p] < parents.len()
}

/// The root above the node `i`.
pub open spec fn root_of(parents: Seq<usize>, i: int) -> int
    decreases parents.len() - i,
{
    if 0 <= i < parents.len() && i < parents[i] < parents.len() {
        root_of(parents, parents[i] as int)
    } else {
        i
    }
}

/// The root of each of the first `n` nodes.
pub open spec fn assignment_spec(parents: Seq<usize>, n: int) -> Seq<usize> {
    Seq::new(n as nat, |x: int| root_of(parents, x) as usize)
}

/// The values of `s`, each once, in the order in which they first occur.
pub open spec fn distinct(s: Seq<usize>) -> Seq<usize>
    decreases s.len(),
{
    if s.len() == 0 {
        Seq::empty()
    } else {
        let d = distinct(s.drop_last());
        if d.contains(s.last()) {
            d
        } else {
            d.push(s.last())
        }
    }
}

/// The roots of the first `n` nodes, in the order of the nodes.
pub open spec fn clusters_spec(parents: Seq<usize>, n: int) -> Seq<usize> {
    distinct(assignment_spec(parents, n))
}

/// Number of the first `upto` instances that are assigned to `c`.
pub open spec fn member_count(a: Seq<usize>, c: usize, upto: int) -> nat
    decreases upto,
{
    if upto <= 0 {
        0
    } else {
        member_count(a, c, upto - 1) + if a[upto - 1] == c {
            1nat
        } else {
            0nat
        }
    }
}

/// Sum of the distances from instance `x` to the members of `j` among the
/// first `upto` instances.
pub open spec fn row_sum(dist: Seq<u64>, a: Seq<usize>, x: int, j: usize, upto: int) -> nat
    decreases upto,
{
    if upto <= 0 {
        0
    } else {
        row_sum(dist, a, x, j, upto - 1) + if a[upto - 1] == j {
            dist[x * a.len() + (upto - 1)] as nat
        } else {
            0nat
        }
    }
}

/// Sum of the distances from the members of `i` among the first `upto`
/// instances to all members of `j`.
pub open spec fn pair_sum(dist: Seq<u64>, a: Seq<usize>, i: usize, j: usize, upto: int) -> nat
    decreases upto,
{
    if upto <= 0 {
        0
    } else {
        pair_sum(dist, a, i, j, upto - 1) + if a[upto - 1] == i {
            row_sum(dist, a, upto - 1, j, a.len() as int)
        } else {
            0nat
        }
    }
}

/// Average linkage between the clusters `i` and `j`: the mean of the
/// distances from every member of `i` to every member of `j`, as they are
/// stored, rounded down. It is `INFINITY` where the sum is, and where one
/// of the two has no member.
pub open spec fn linkage_spec(dist: Seq<u64>, a: Seq<usize>, i: usize, j: usize) -> u64 {
    let pairs = member_count(a, i, a.len() as int) * member_count(a, j, a.len() as int);
    let total = cap(pair_sum(dist, a, i, j, a.len() as int) as int);
    if pairs == 0 || total == INFINITY {
        INFINITY
    } else {
        (total as int / pairs as int) as u64
    }
}

/// The kind of a merge: which of the two sides is an instance (an id below
/// `n`) and which a cluster made by an earlier merge.
pub open spec fn merge_kind(p: usize, q: usize, n: usize) -> Merge {
    if p < n && q < n {
        Merge::Sequence2Sequence
    } else if p >= n && q >= n {
        Merge::Cluster2Cluster
    } else if p >= n && q < n {
        Merge::Cluster2Sequence
    } else {
        Merge::Sequence2Cluster
    }
}

/// The forest that a merge of the roots `p` and `q` leaves.
pub open spec fn merged_forest(parents: Seq<usize>, p: usize, q: usize) -> Seq<usize> {
    let k = parents.len() as usize;
    parents.update(p as int, k).update(q as int, k).push(k)
}

/// `(bi, bj)` is the first pair of distinct positions, rows before columns,
/// whose linkage no other pair undercuts.
pub open spec fn is_first_min_pair(
    dist: Seq<u64>,
    a: Seq<usize>,
    roots: Seq<usize>,
    bi: int,
    bj: int,
) -> bool {
    &&& 0 <= bi < roots.len()
    &&& 0 <= bj < roots.len()
    &&& bi != bj
    &&& forall|x: int, y: int|
        0 <= x < roots.len() && 0 <= y < roots.len() && x != y ==> {
            &&& linkage_spec(dist, a, roots[bi], roots[bj]) <= #[trigger] linkage_spec(
                dist,
                a,
                roots[x],
                roots[y],
            )
            &&& (x < bi || (x == bi && y < bj)) ==> linkage_spec(dist, a, roots[bi], roots[bj])
                < linkage_spec(dist, a, roots[x], roots[y])
        }
}

/// `p` and `q` are the first pair of clusters with the least linkage in the
/// forest `parents`, and `linkage` is their linkage.
pub open spec fn is_best_pair(
    parents: Seq<usize>,
    dist: Seq<u64>,
    n: usize,
    p: usize,
    q: usize,
    linkage: u64,
) -> bool {
    let a = assignment_spec(parents, n as int);
    let roots = clusters_spec(parents, n as int);
    exists|bi: int, bj: int|
        {
            &&& #[trigger] is_first_min_pair(dist, a, roots, bi, bj)
            &&& p == roots[bi]
            &&& q == roots[bj]
            &&& linkage == linkage_spec(dist, a, roots[bi], roots[bj])
        }
}

/// `op` merges, in the forest `parents`, the first pair of clusters with
/// the least linkage.
pub open spec fn is_merge_step(
    parents: Seq<usize>,
    dist: Seq<u64>,
    n: usize,
    op: ClusteringOperation,
) -> bool {
    &&& is_best_pair(parents, dist, n, op.merge_i, op.merge_j, op.distance)
    &&& op.into == parents.len()
    &&& op.operation == merge_kind(op.merge_i, op.merge_j, n)
}

/// Following a parent pointer does not change the root.
pub proof fn lemma_root_step(parents: Seq<usize>, i: int)
    requires
        forest_wf(parents),
        0 <= i < parents.len(),
    ensures
        root_of(parents, i) == root_of(parents, parents[i] as int),
        i <= root_of(parents, i) < parents.len(),
        parents[root_of(parents, i)] == root_of(parents, i),
    decreases parents.len() - i,
{
    if i < parents[i] {
        lemma_root_step(parents, parents[i] as int);
    }
}

/// `distinct` keeps every value of the sequence, once.
pub proof fn lemma_distinct(s: Seq<usize>)
    ensures
        distinct(s).no_duplicates(),
        forall|v: usize| distinct(s).contains(v) <==> s.contains(v),
        distinct(s).len() <= s.len(),
    decreases s.len(),
{
    if s.len() > 0 {
        let front = s.drop_last();
        lemma_distinct(front);
        let d = distinct(front);
        assert forall|v: usize| distinct(s).contains(v) implies s.contains(v) by {
            let w = choose|w: int| 0 <= w < distinct(s).len() && distinct(s)[w] == v;
            if w < d.len() {
                assert(d[w] == v);
                assert(d.contains(v));
                assert(front.contains(v));
                let k = choose|k: int| 0 <= k < front.len() && front[k] == v;
                assert(s[k] == v);
            } else {
                assert(s[s.len() - 1] == v);
            }
        }
        assert forall|v: usize| s.contains(v) implies distinct(s).contains(v) by {
            let k = choose|k: int| 0 <= k < s.len() && s[k] == v;
            if k < s.len() - 1 {
                assert(front[k] == v);
                assert(front.contains(v));
                assert(d.contains(v));
                let w = choose|w: int| 0 <= w < d.len() && d[w] == v;
                if !d.contains(s.last()) {
                    assert(d.push(s.last())[w] == v);
                }
            } else {
                if !d.contains(s.last()) {
                    assert(d.push(s.last())[d.len() as int] == v);
                }
            }
        }
    }
}

/// After a merge of the roots `p` and `q`, the nodes that stood under one
/// of them stand under the new node, and every other node keeps its root.
pub proof fn lemma_root_after_merge(parents: Seq<usize>, p: usize, q: usize, i: int)
    requires
        forest_wf(parents),
        parents.len() < usize::MAX,
        p < parents.len(),
        q < parents.len(),
        parents[p as int] == p,
        parents[q as int] == q,
        0 <= i < parents.len(),
    ensures
        root_of(merged_forest(parents, p, q), i) == if root_of(parents, i) == p || root_of(
            parents,
            i,
        ) == q {
            parents.len() as int
        } else {
            root_of(parents, i)
        },
    decreases parents.len() - i,
{
    let merged = merged_forest(parents, p, q);
    let k = parents.len() as int;
    assert(merged[k] == k);
    assert(root_of(merged, k) == k);
    if i == p || i == q {
        assert(merged[i] == k);
        assert(root_of(merged, i) == root_of(merged, k));
    } else {
        assert(merged[i] == parents[i]);
        if i < parents[i] {
            lemma_root_after_merge(parents, p, q, parents[i] as int);
        }
    }
}

/// A merge keeps the forest well formed.
pub proof fn lemma_merged_forest_wf(parents: Seq<usize>, p: usize, q: usize)
    requires
        forest_wf(parents),
        parents.len() < usize::MAX,
        p < parents.len(),
        q < parents.len(),
    ensures
        forest_wf(merged_forest(parents, p, q)),
{
    let merged = merged_forest(parents, p, q);
    assert forall|x: int| 0 <= x < merged.len() implies x <= #[trigger] merged[x]
        < merged.len() by {
        if x < parents.len() && x != p && x != q {
            assert(merged[x] == parents[x]);
        }
    }
}

/// Where two values of a sequence are replaced by one new value, the
/// sequence holds one distinct value less.
pub proof fn lemma_distinct_after_merge(a: Seq<usize>, b: Seq<usize>, p: usize, q: usize, k: usize)
    requires
        a.len() == b.len(),
        p != q,
        a.contains(p),
        a.contains(q),
        !a.contains(k),
        forall|x: int|
            0 <= x < a.len() ==> #[trigger] b[x] == if a[x] == p || a[x] == q {
                k
            } else {
                a[x]
            },
    ensures
        distinct(b).len() + 1 == distinct(a).len(),
{
    lemma_distinct(a);
    lemma_distinct(b);
    distinct(a).unique_seq_to_set();
    distinct(b).unique_seq_to_set();
    let sa = distinct(a).to_set();
    let sb = distinct(b).to_set();
    assert(sa.finite());
    let wp = choose|w: int| 0 <= w < a.len() && a[w] == p;
    assert(b[wp] == k);
    assert(b.contains(k));
    assert forall|v: usize| sb.contains(v) <==> sa.remove(p).remove(q).insert(k).contains(v) by {
        if sb.contains(v) {
            assert(distinct(b).contains(v));
            assert(b.contains(v));
            let w = choose|w: int| 0 <= w < b.len() && b[w] == v;
            if v != k {
                assert(a[w] == v);
                assert(a.contains(v));
                assert(distinct(a).contains(v));
            }
        }
        if sa.remove(p).remove(q).insert(k).contains(v) {
            if v != k {
                assert(distinct(a).contains(v));
                assert(a.contains(v));
                let w = choose|w: int| 0 <= w < a.len() && a[w] == v;
                assert(b[w] == v);
                assert(b.contains(v));
            }
            assert(distinct(b).contains(v));
        }
    }
    assert(sb =~= sa.remove(p).remove(q).insert(k));
    assert(distinct(a).contains(p));
    assert(distinct(a).contains(q));
    assert(sa.contains(p));
    assert(sa.remove(p).contains(q));
    assert(!distinct(a).contains(k));
    assert(!sa.remove(p).remove(q).contains(k));
}

/// The forest that the merges `ops` leave of `n` instances.
pub open spec fn forest_after(n: usize, ops: Seq<ClusteringOperation>) -> Seq<usize>
    decreases ops.len(),
{
    if ops.len() == 0 {
        Seq::new(n as nat, |i: int| i as usize)
    } else {
        merged_forest(forest_after(n, ops.drop_last()), ops.last().merge_i, ops.last().merge_j)
    }
}

/// The first `upto` entries of the table that lie off its diagonal.
pub open spec fn off_diagonal(dist: Seq<u64>, n: int, upto: int) -> Seq<u64>
    decreases upto,
{
    if upto <= 0 || n <= 0 {
        Seq::empty()
    } else {
        let rest = off_diagonal(dist, n, upto - 1);
        if (upto - 1) / n != (upto - 1) % n {
            rest.push(dist[upto - 1])
        } else {
            rest
        }
    }
}

/// The linkage at which merging stops: a percentile of the distances
/// between different instances.
pub open spec fn threshold_spec(dist: Seq<u64>, n: usize, per_mille: u64) -> u64 {
    percentile_spec(off_diagonal(dist, n as int, n * n), per_mille)
}

/// The merge `ops[t]` is the merge of the first pair of clusters with the
/// least linkage in the forest that the merges before it left, and its
/// linkage lies below the threshold.
pub open spec fn step_ok(
    dist: Seq<u64>,
    n: usize,
    threshold: u64,
    ops: Seq<ClusteringOperation>,
    t: int,
) -> bool {
    &&& ops[t].distance < threshold
    &&& is_merge_step(forest_after(n, ops.take(t)), dist, n, ops[t])
}

/// `ops` is the dendrogram of `n` instances: every merge took the best pair
/// and lay below the threshold, and after the last one a single cluster
/// remains or the linkage of the next merge reaches the threshold.
pub open spec fn is_dendrogram(
    dist: Seq<u64>,
    n: usize,
    threshold: u64,
    ops: Seq<ClusteringOperation>,
) -> bool {
    &&& forall|t: int| 0 <= t < ops.len() ==> #[trigger] step_ok(dist, n, threshold, ops, t)
    &&& (n - ops.len() <= 1 || exists|p: usize, q: usize, linkage: u64|
        #[trigger] is_best_pair(forest_after(n, ops), dist, n, p, q, linkage) && linkage
            >= threshold)
}

/// The ids that the cluster `id` stands for once the first `upto` merges
/// are replayed: the ids of the two clusters that the last merge into `id`
/// joined, each resolved as of that merge; an id that no merge led into
/// stands for itself.
pub open spec fn resolve(ops: Seq<ClusteringOperation>, upto: int, id: usize) -> Seq<usize>
    decreases upto,
{
    if upto <= 0 {
        seq![id]
    } else if ops[upto - 1].into == id {
        resolve(ops, upto - 1, ops[upto - 1].merge_i) + resolve(
            ops,
            upto - 1,
            ops[upto - 1].merge_j,
        )
    } else {
        resolve(ops, upto - 1, id)
    }
}

/// The ids of `s` that are instances, in their order.
pub open spec fn leaves_only(s: Seq<usize>, n: usize) -> Seq<usize>
    decreases s.len(),
{
    if s.len() == 0 {
        Seq::empty()
    } else {
        let rest = leaves_only(s.drop_last(), n);
        if s.last() < n {
            rest.push(s.last())
        } else {
            rest
        }
    }
}

/// The instances of the cluster `id` after all merges.
pub open spec fn cluster_set(ops: Seq<ClusteringOperation>, id: usize, n: usize) -> Seq<usize> {
    leaves_only(resolve(ops, ops.len() as int, id), n)
}

/// Performs hierarchical clustering.
/// Holds temporary data during dendrogram construction.
pub struct AgglomerativeClustering {
    /// Parent pointers, as in a union-find forest.
    pub parents: Vec<usize>,
    /// The distance between every ordered pair of instances, row by row.
    pub distances: Vec<u64>,
    pub n_instances: usize,
    pub n_clusters: usize,
}

/// Appends a copy of `src` to `out`.
fn extend(out: &mut Vec<usize>, src: &Vec<usize>)
    ensures
        final(out)@ == old(out)@ + src@,
{
    let ghost before = out@;
    let mut k: usize = 0;
    while k < src.len()
        invariant
            k <= src@.len(),
            out@ == before + src@.take(k as int),
        decreases src@.len() - k,
    {
        out.push(src[k]);
        k = k + 1;
        assert(out@ =~= before + src@.take(k as int));
    }
    assert(src@.take(src@.len() as int) =~= src@);
}

/// What the cluster `id` stands for after the first `upto` merges.
fn lookup(
    operations: &Vec<ClusteringOperation>,
    results: &Vec<Vec<usize>>,
    upto: usize,
    id: usize,
) -> (r: Vec<usize>)
    requires
        upto <= operations@.len(),
        upto <= results@.len(),
        forall|t: int|
            0 <= t < upto ==> (#[trigger] results@[t])@ == resolve(
                operations@,
                t + 1,
                operations@[t].into,
            ),
    ensures
        r@ == resolve(operations@, upto as int, id),
{
    let mut out: Vec<usize> = Vec::new();
    let mut k: usize = upto;
    while k > 0
        invariant
            k <= upto <= operations@.len(),
            upto <= results@.len(),
            out@.len() == 0,
            resolve(operations@, upto as int, id) == resolve(operations@, k as int, id),
            forall|t: int|
                0 <= t < upto ==> (#[trigger] results@[t])@ == resolve(
                    operations@,
                    t + 1,
                    operations@[t].into,
                ),
        decreases k,
    {
        if operations[k - 1].into == id {
            extend(&mut out, &results[k - 1]);
            assert(out@ =~= results@[k - 1]@);
            return out;
        }
        k = k - 1;
    }
    out.push(id);
    assert(out@ =~= seq![id]);
    out
}

/// Whether `v` holds `x`.
fn holds(v: &Vec<usize>, x: usize) -> (r: bool)
    ensures
        r == v@.contains(x),
{
    let mut k: usize = 0;
    while k < v.len()
        invariant
            k <= v@.len(),
            forall|t: int| 0 <= t < k ==> v@[t] != x,
        decreases v@.len() - k,
    {
        if v[k] == x {
            return true;
        }
        k = k + 1;
    }
    false
}

impl AgglomerativeClustering {
    /// Replays the merges and returns, for each of the given clusters, the
    /// instances that it holds. A cluster that no merge led into holds
    /// itself.
    pub fn cluster_sets(
        operations: &Vec<ClusteringOperation>,
        cluster_ids: &Vec<usize>,
        n_instances: usize,
    ) -> (r: Vec<Vec<usize>>)
        ensures
            r@.len() == cluster_ids@.len(),
            forall|c: int|
                0 <= c < cluster_ids@.len() ==> (#[trigger] r@[c])@ == cluster_set(
                    operations@,
                    cluster_ids@[c],
                    n_instances,
                ),
    {
        let mut results: Vec<Vec<usize>> = Vec::new();
        let mut t: usize = 0;
        while t < operations.len()
            invariant
                t <= operations@.len(),
                results@.len() == t,
                forall|u: int|
                    0 <= u < t ==> (#[trigger] results@[u])@ == resolve(
                        operations@,
                        u + 1,
                        operations@[u].into,
                    ),
            decreases operations@.len() - t,
        {
            let op = operations[t];
            let mut cluster = lookup(operations, &results, t, op.merge_i);
            let second = lookup(operations, &results, t, op.merge_j);
            extend(&mut cluster, &second);
            results.push(cluster);
            t = t + 1;
        }
        let mut grouped: Vec<Vec<usize>> = Vec::new();
        let mut c: usize = 0;
        while c < cluster_ids.len()
            invariant
                c <= cluster_ids@.len(),
                grouped@.len() == c,
                results@.len() == operations@.len(),
                forall|u: int|
                    0 <= u < operations@.len() ==> (#[trigger] results@[u])@ == resolve(
                        operations@,
                        u + 1,
                        operations@[u].into,
                    ),
                forall|d: int|
                    0 <= d < c ==> (#[trigger] grouped@[d])@ == cluster_set(
                        operations@,
                        cluster_ids@[d],
                        n_instances,
                    ),
            decreases cluster_ids@.len() - c,
        {
            let all = lookup(operations, &results, operations.len(), cluster_ids[c]);
            let mut group: Vec<usize> = Vec::new();
            let mut k: usize = 0;
            assert(all@.take(0) =~= Seq::<usize>::empty());
            while k < all.len()
                invariant
                    k <= all@.len(),
                    group@ == leaves_only(all@.take(k as int), n_instances),
                decreases all@.len() - k,
            {
                proof {
                    let next = all@.take(k as int + 1);
                    assert(next.drop_last() =~= all@.take(k as int));
                    assert(next.last() == all@[k as int]);
                }
                if all[k] < n_instances {
                    group.push(all[k]);
                }
                k = k + 1;
            }
            assert(all@.take(all@.len() as int) =~= all@);
            grouped.push(group);
            c = c + 1;
        }
        grouped
    }

    /// The forest is well formed, the table of distances is square, and the
    /// number of clusters is the number of roots above the instances.
    pub open spec fn wf(&self) -> bool {
        &&& forest_wf(self.parents@)
        &&& self.n_instances <= self.parents@.len()
        &&& self.distances@.len() == self.n_instances * self.n_instances
        &&& self.n_clusters == clusters_spec(self.parents@, self.n_instances as int).len()
        &&& self.parents@.len() - self.n_instances + self.n_clusters == self.n_instances
    }

    /// Every instance in a cluster of its own.
    pub fn new(distances: Vec<u64>, n_instances: usize) -> (r: AgglomerativeClustering)
        requires
            distances@.len() == n_instances * n_instances,
        ensures
            r.wf(),
            r.parents@ == Seq::new(n_instances as nat, |i: int| i as usize),
            r.distances@ == distances@,
            r.n_instances == n_instances,
            r.n_clusters == n_instances,
    {
        let mut parents: Vec<usize> = Vec::new();
        let mut i: usize = 0;
        while i < n_instances
            invariant
                i <= n_instances,
                parents@ == Seq::new(i as nat, |x: int| x as usize),
            decreases n_instances - i,
        {
            parents.push(i);
            i = i + 1;
            assert(parents@ =~= Seq::new(i as nat, |x: int| x as usize));
        }
        proof {
            lemma_singletons(n_instances as nat);
        }
        AgglomerativeClustering { parents, distances, n_instances, n_clusters: n_instances }
    }

    /// Find the cluster assignment for a node
    pub fn cluster(&self, i: usize) -> (r: usize)
        requires
            forest_wf(self.parents@),
            i < self.parents@.len(),
        ensures
            r == root_of(self.parents@, i as int),
            r < self.parents@.len(),
            self.parents@[r as int] == r,
    {
        let mut p: usize = i;
        while p != self.parents[p]
            invariant
                forest_wf(self.parents@),
                p < self.parents@.len(),
                root_of(self.parents@, p as int) == root_of(self.parents@, i as int),
            decreases self.parents@.len() - p,
        {
            proof {
                lemma_root_step(self.parents@, p as int);
            }
            p = self.parents[p];
        }
        p
    }

    /// Compute cluster assignment for each instance
    pub fn assignment(&self) -> (r: Vec<usize>)
        requires
            forest_wf(self.parents@),
            self.n_instances <= self.parents@.len(),
        ensures
            r@ == assignment_spec(self.parents@, self.n_instances as int),
    {
        let mut out: Vec<usize> = Vec::new();
        let mut i: usize = 0;
        while i < self.n_instances
            invariant
                forest_wf(self.parents@),
                i <= self.n_instances <= self.parents@.len(),
                out@ == assignment_spec(self.parents@, i as int),
            decreases self.n_instances - i,
        {
            let c = self.cluster(i);
            out.push(c);
            i = i + 1;
            assert(out@ =~= assignment_spec(self.parents@, i as int));
        }
        out
    }

    /// Compute the top level clusters, each once, in the order of the
    /// instances.
    pub fn clusters(&self) -> (r: Vec<usize>)
        requires
            forest_wf(self.parents@),
            self.n_instances <= self.parents@.len(),
        ensures
            r@ == clusters_spec(self.parents@, self.n_instances as int),
    {
        let ghost all = assignment_spec(self.parents@, self.n_instances as int);
        let mut out: Vec<usize> = Vec::new();
        let mut i: usize = 0;
        assert(all.take(0) =~= Seq::<usize>::empty());
        while i < self.n_instances
            invariant
                forest_wf(self.parents@),
                i <= self.n_instances <= self.parents@.len(),
                all == assignment_spec(self.parents@, self.n_instances as int),
                out@ == distinct(all.take(i as int)),
            decreases self.n_instances - i,
        {
            let c = self.cluster(i);
            proof {
                let next = all.take(i as int + 1);
                assert(next.drop_last() =~= all.take(i as int));
                assert(next.last() == c);
            }
            if !holds(&out, c) {
                out.push(c);
            }
            i = i + 1;
        }
        assert(all.take(self.n_instances as int) =~= all);
        out
    }

    /// Average linkage between the clusters `i` and `j`.
    pub fn linkage(&self, assignment: &Vec<usize>, i: usize, j: usize) -> (r: u64)
        requires
            assignment@.len() == self.n_instances,
            self.distances@.len() == self.n_instances * self.n_instances,
        ensures
            r == linkage_spec(self.distances@, assignment@, i, j),
    {
        let n: usize = assignment.len();
        let mut size_y: usize = 0;
        let mut y: usize = 0;
        while y < n
            invariant
                y <= n,
                n == assignment@.len(),
                size_y <= y,
                size_y == member_count(assignment@, j, y as int),
            decreases n - y,
        {
            if assignment[y] == j {
                size_y = size_y + 1;
            }
            y = y + 1;
        }
        let mut size_x: usize = 0;
        let mut distance: u64 = 0;
        let mut x: usize = 0;
        while x < n
            invariant
                x <= n,
                n == assignment@.len(),
                n == self.n_instances,
                self.distances@.len() == n * n,
                size_x <= x,
                size_x == member_count(assignment@, i, x as int),
                distance == cap(pair_sum(self.distances@, assignment@, i, j, x as int) as int),
            decreases n - x,
        {
            if assignment[x] == i {
                let ghost before = pair_sum(self.distances@, assignment@, i, j, x as int);
                let mut y: usize = 0;
                while y < n
                    invariant
                        y <= n,
                        x < n,
                        n == assignment@.len(),
                        self.distances@.len() == n * n,
                        distance == cap(
                            (before + row_sum(self.distances@, assignment@, x as int, j, y as int))
                                as int,
                        ),
                    decreases n - y,
                {
                    if assignment[y] == j {
                        proof {
                            lemma_product_bounds(x as int, n - 1, n as int);
                            assert((n - 1) * n + n == n * n) by (nonlinear_arith);
                            assert(self.distances.len() == self.distances@.len());
                        }
                        distance = add_cost(distance, self.distances[x * n + y]);
                    }
                    y = y + 1;
                }
                size_x = size_x + 1;
            }
            x = x + 1;
        }
        proof {
            assert(0 <= size_x * size_y <= 0xffff_ffff_ffff_ffff * 0xffff_ffff_ffff_ffff)
                by (nonlinear_arith)
                requires
                    0 <= size_x <= 0xffff_ffff_ffff_ffff,
                    0 <= size_y <= 0xffff_ffff_ffff_ffff,
            ;
        }
        let pairs: u128 = size_x as u128 * size_y as u128;
        if pairs == 0 || distance == INFINITY {
            INFINITY
        } else {
            (distance as u128 / pairs) as u64
        }
    }

    /// Merge two clusters by adding a new node with the two clusters as
    /// child nodes
    pub fn merge_clusters(&mut self, p: usize, q: usize) -> (k: usize)
        requires
            old(self).wf(),
            old(self).parents@.len() < usize::MAX,
            p < old(self).parents@.len(),
            q < old(self).parents@.len(),
            p != q,
            clusters_spec(old(self).parents@, old(self).n_instances as int).contains(p),
            clusters_spec(old(self).parents@, old(self).n_instances as int).contains(q),
        ensures
            k == old(self).parents@.len(),
            final(self).parents@ == merged_forest(old(self).parents@, p, q),
            final(self).distances@ == old(self).distances@,
            final(self).n_instances == old(self).n_instances,
            final(self).n_clusters == old(self).n_clusters - 1,
            final(self).wf(),
    {
        let k: usize = self.parents.len();
        let ghost before = self.parents@;
        let ghost n = self.n_instances as int;
        proof {
            let a = assignment_spec(before, n);
            let b = assignment_spec(merged_forest(before, p, q), n);
            lemma_distinct(a);
            assert(a.contains(p));
            assert(a.contains(q));
            let wp = choose|w: int| 0 <= w < a.len() && a[w] == p;
            lemma_root_step(before, wp);
            let wq = choose|w: int| 0 <= w < a.len() && a[w] == q;
            lemma_root_step(before, wq);
            assert(before[p as int] == p);
            assert(before[q as int] == q);
            assert forall|x: int| 0 <= x < a.len() implies #[trigger] b[x] == if a[x] == p || a[x]
                == q {
                k
            } else {
                a[x]
            } by {
                lemma_root_after_merge(before, p, q, x);
                lemma_root_step(before, x);
            }
            assert(!a.contains(k)) by {
                if a.contains(k) {
                    let w = choose|w: int| 0 <= w < a.len() && a[w] == k;
                    lemma_root_step(before, w);
                }
            }
            lemma_distinct_after_merge(a, b, p, q, k);
            lemma_merged_forest_wf(before, p, q);
            assert(distinct(a).len() >= 1);
        }
        self.parents[p] = k;
        self.parents[q] = k;
        self.parents.push(k);
        self.n_clusters -= 1;
        k
    }

    /// The first two clusters with the least average linkage, and their
    /// linkage.
    pub fn best_merge(&self) -> (r: (usize, usize, u64))
        requires
            self.wf(),
            self.n_clusters >= 2,
        ensures
            is_best_pair(self.parents@, self.distances@, self.n_instances, r.0, r.1, r.2),
            r.0 != r.1,
            r.0 < self.parents@.len(),
            r.1 < self.parents@.len(),
            clusters_spec(self.parents@, self.n_instances as int).contains(r.0),
            clusters_spec(self.parents@, self.n_instances as int).contains(r.1),
    {
        let assignment = self.assignment();
        let clusters = self.clusters();
        let count: usize = clusters.len();
        let mut min_linkage: u64 = self.linkage(&assignment, clusters[0], clusters[1]);
        let mut best_i: usize = 0;
        let mut best_j: usize = 1;
        let mut ti: usize = 0;
        while ti < count
            invariant
                self.wf(),
                ti <= count,
                count == clusters@.len(),
                count >= 2,
                assignment@ == assignment_spec(self.parents@, self.n_instances as int),
                clusters@ == clusters_spec(self.parents@, self.n_instances as int),
                best_i < count,
                best_j < count,
                best_i != best_j,
                min_linkage == linkage_spec(
                    self.distances@,
                    assignment@,
                    clusters@[best_i as int],
                    clusters@[best_j as int],
                ),
                ti == 0 ==> best_i == 0 && best_j == 1,
                ti > 0 ==> best_i < ti,
                forall|x: int, y: int|
                    0 <= x < ti && 0 <= y < count && x != y ==> {
                        &&& min_linkage <= #[trigger] linkage_spec(
                            self.distances@,
                            assignment@,
                            clusters@[x],
                            clusters@[y],
                        )
                        &&& (x < best_i || (x == best_i && y < best_j)) ==> min_linkage
                            < linkage_spec(self.distances@, assignment@, clusters@[x], clusters@[y])
                    },
            decreases count - ti,
        {
            let mut tj: usize = 0;
            while tj < count
                invariant
                    self.wf(),
                    ti < count,
                    tj <= count,
                    count == clusters@.len(),
                    count >= 2,
                    assignment@ == assignment_spec(self.parents@, self.n_instances as int),
                    clusters@ == clusters_spec(self.parents@, self.n_instances as int),
                    best_i < count,
                    best_j < count,
                    best_i != best_j,
                    best_i <= ti,
                    min_linkage == linkage_spec(
                        self.distances@,
                        assignment@,
                        clusters@[best_i as int],
                        clusters@[best_j as int],
                    ),
                    ti == 0 && tj <= 1 ==> best_i == 0 && best_j == 1,
                    best_i == ti ==> (best_j < tj || (ti == 0 && tj <= 1)),
                    forall|x: int, y: int|
                        0 <= x < count && 0 <= y < count && x != y && (x < ti || (x == ti && y
                            < tj)) ==> {
                            &&& min_linkage <= #[trigger] linkage_spec(
                                self.distances@,
                                assignment@,
                                clusters@[x],
                                clusters@[y],
                            )
                            &&& (x < best_i || (x == best_i && y < best_j)) ==> min_linkage
                                < linkage_spec(
                                self.distances@,
                                assignment@,
                                clusters@[x],
                                clusters@[y],
                            )
                        },
                decreases count - tj,
            {
                if ti != tj {
                    let linkage = self.linkage(&assignment, clusters[ti], clusters[tj]);
                    if linkage < min_linkage {
                        min_linkage = linkage;
                        best_i = ti;
                        best_j = tj;
                    }
                }
                tj = tj + 1;
            }
            ti = ti + 1;
        }
        let p: usize = clusters[best_i];
        let q: usize = clusters[best_j];
        proof {
            lemma_distinct(assignment@);
            assert(clusters@.no_duplicates());
            assert(clusters@.contains(p));
            assert(clusters@.contains(q));
            assert(assignment@.contains(p));
            assert(assignment@.contains(q));
            let wp = choose|w: int| 0 <= w < assignment@.len() && assignment@[w] == p;
            lemma_root_step(self.parents@, wp);
            let wq = choose|w: int| 0 <= w < assignment@.len() && assignment@[w] == q;
            lemma_root_step(self.parents@, wq);
            assert(is_first_min_pair(
                self.distances@,
                assignment@,
                clusters@,
                best_i as int,
                best_j as int,
            ));
        }
        (p, q, min_linkage)
    }

    /// Merges the first two clusters with the least average linkage, and
    /// returns the merge operation
    pub fn merge(&mut self) -> (op: ClusteringOperation)
        requires
            old(self).wf(),
            old(self).n_clusters >= 2,
            old(self).parents@.len() < usize::MAX,
        ensures
            is_merge_step(old(self).parents@, old(self).distances@, old(self).n_instances, op),
            final(self).parents@ == merged_forest(old(self).parents@, op.merge_i, op.merge_j),
            final(self).distances@ == old(self).distances@,
            final(self).n_instances == old(self).n_instances,
            final(self).n_clusters == old(self).n_clusters - 1,
            final(self).wf(),
    {
        let (p, q, min_linkage) = self.best_merge();
        self.merge_pair(p, q, min_linkage)
    }

    /// Merges the two clusters that `best_merge` found.
    pub fn merge_pair(&mut self, p: usize, q: usize, linkage: u64) -> (op: ClusteringOperation)
        requires
            old(self).wf(),
            old(self).parents@.len() < usize::MAX,
            is_best_pair(
                old(self).parents@,
                old(self).distances@,
                old(self).n_instances,
                p,
                q,
                linkage,
            ),
        ensures
            is_merge_step(old(self).parents@, old(self).distances@, old(self).n_instances, op),
            op.merge_i == p,
            op.merge_j == q,
            op.distance == linkage,
            final(self).parents@ == merged_forest(old(self).parents@, p, q),
            final(self).distances@ == old(self).distances@,
            final(self).n_instances == old(self).n_instances,
            final(self).n_clusters == old(self).n_clusters - 1,
            final(self).wf(),
    {
        proof {
            let a = assignment_spec(self.parents@, self.n_instances as int);
            let roots = clusters_spec(self.parents@, self.n_instances as int);
            let (bi, bj) = choose|bi: int, bj: int|
                {
                    &&& #[trigger] is_first_min_pair(self.distances@, a, roots, bi, bj)
                    &&& p == roots[bi]
                    &&& q == roots[bj]
                    &&& linkage == linkage_spec(self.distances@, a, roots[bi], roots[bj])
                };
            lemma_distinct(a);
            assert(roots.contains(p));
            assert(roots.contains(q));
            assert(a.contains(p));
            assert(a.contains(q));
            let wp = choose|w: int| 0 <= w < a.len() && a[w] == p;
            lemma_root_step(self.parents@, wp);
            let wq = choose|w: int| 0 <= w < a.len() && a[w] == q;
            lemma_root_step(self.parents@, wq);
        }
        let n: usize = self.n_instances;
        let k = self.merge_clusters(p, q);
        let operation = if p < n && q < n {
            Merge::Sequence2Sequence
        } else if p >= n && q >= n {
            Merge::Cluster2Cluster
        } else if p >= n && q < n {
            Merge::Cluster2Sequence
        } else {
            Merge::Sequence2Cluster
        };
        ClusteringOperation { merge_i: p, merge_j: q, into: k, distance: linkage, operation }
    }

    /// The distances between different instances, row by row.
    fn off_diagonal_values(distances: &Vec<u64>, n_instances: usize) -> (r: Vec<u64>)
        requires
            distances@.len() == n_instances * n_instances,
        ensures
            r@ == off_diagonal(distances@, n_instances as int, n_instances * n_instances),
            n_instances >= 2 ==> r@.len() > 0,
    {
        let mut out: Vec<u64> = Vec::new();
        if n_instances == 0 {
            return out;
        }
        let total: usize = distances.len();
        let mut at: usize = 0;
        while at < total
            invariant
                at <= total,
                n_instances > 0,
                total == distances@.len(),
                total == n_instances * n_instances,
                out@ == off_diagonal(distances@, n_instances as int, at as int),
                n_instances >= 2 && at >= 2 ==> out@.len() > 0,
            decreases total - at,
        {
            if at / n_instances != at % n_instances {
                out.push(distances[at]);
            }
            proof {
                if at == 1 && n_instances >= 2 {
                    assert(1int / (n_instances as int) == 0 && 1int % (n_instances as int) == 1)
                        by (nonlinear_arith)
                        requires
                            n_instances >= 2,
                    ;
                }
            }
            at = at + 1;
        }
        proof {
            if n_instances >= 2 {
                assert(n_instances * n_instances >= 2) by (nonlinear_arith)
                    requires
                        n_instances >= 2,
                ;
            }
        }
        out
    }

    /// Builds the dendrogram: each instance starts as a cluster of its own,
    /// and the two clusters with the least average linkage are merged until
    /// one cluster remains or the linkage of the next merge reaches the
    /// percentile `perc` (in parts per thousand) of the distances between
    /// different instances; that merge is not made. Returns the merges and
    /// the clusters that remain.
    pub fn clustering(distances: Vec<u64>, n_instances: usize, perc: u64) -> (r: (
        Vec<ClusteringOperation>,
        Vec<usize>,
    ))
        requires
            distances@.len() == n_instances * n_instances,
            perc < PER_MILLE,
        ensures
            n_instances >= 2 ==> is_dendrogram(
                distances@,
                n_instances,
                threshold_spec(distances@, n_instances, perc),
                r.0@,
            ),
            n_instances < 2 ==> r.0@.len() == 0,
            is_merge_trace(distances@, n_instances, r.0@),
            r.1@ == clusters_spec(forest_after(n_instances, r.0@), n_instances as int),
            r.0@.len() + r.1@.len() == n_instances,
    {
        let ghost dist = distances@;
        let mut cluster_result: Vec<ClusteringOperation> = Vec::new();
        if n_instances < 2 {
            let dendogram = AgglomerativeClustering::new(distances, n_instances);
            let roots = dendogram.clusters();
            return (cluster_result, roots);
        }
        let values = AgglomerativeClustering::off_diagonal_values(&distances, n_instances);
        let threshold: u64 = percentile(&values, perc);
        proof {
            assert(distances.len() == distances@.len());
            assert(2 * n_instances <= n_instances * n_instances) by (nonlinear_arith)
                requires
                    n_instances >= 2,
            ;
        }
        let mut dendogram = AgglomerativeClustering::new(distances, n_instances);
        while dendogram.n_clusters > 1
            invariant_except_break
                dendogram.wf(),
                dendogram.n_instances == n_instances,
                dendogram.distances@ == dist,
                dendogram.parents@ == forest_after(n_instances, cluster_result@),
                cluster_result@.len() + dendogram.n_clusters == n_instances,
                2 * n_instances <= usize::MAX,
                n_instances >= 2,
                threshold == threshold_spec(dist, n_instances, perc),
                forall|t: int|
                    0 <= t < cluster_result@.len() ==> #[trigger] step_ok(
                        dist,
                        n_instances,
                        threshold,
                        cluster_result@,
                        t,
                    ),
            ensures
                dendogram.wf(),
                dendogram.n_instances == n_instances,
                dendogram.parents@ == forest_after(n_instances, cluster_result@),
                cluster_result@.len() + dendogram.n_clusters == n_instances,
                is_dendrogram(dist, n_instances, threshold, cluster_result@),
            decreases dendogram.n_clusters,
        {
            let ghost before = cluster_result@;
            let next = dendogram.best_merge();
            if next.2 >= threshold {
                break ;
            }
            let operation = dendogram.merge_pair(next.0, next.1, next.2);
            cluster_result.push(operation);
            proof {
                let after = cluster_result@;
                assert(after.drop_last() =~= before);
                assert(after.take(before.len() as int) =~= before);
                assert forall|t: int| 0 <= t < after.len() implies #[trigger] step_ok(
                    dist,
                    n_instances,
                    threshold,
                    after,
                    t,
                ) by {
                    if t < before.len() {
                        assert(step_ok(dist, n_instances, threshold, before, t));
                        assert(after.take(t) =~= before.take(t));
                    }
                }
            }
        }
        proof {
            assert forall|t: int| 0 <= t < cluster_result@.len() implies #[trigger] is_merge_step(
                forest_after(n_instances, cluster_result@.take(t)),
                dist,
                n_instances,
                cluster_result@[t],
            ) by {
                assert(step_ok(dist, n_instances, threshold, cluster_result@, t));
            }
        }
        let roots = dendogram.clusters();
        (cluster_result, roots)
    }
}

/// Where no two nodes are joined, every instance is a cluster.
pub proof fn lemma_singletons(n: nat)
    requires
        n <= usize::MAX,
    ensures
        forest_wf(Seq::new(n, |i: int| i as usize)),
        clusters_spec(Seq::new(n, |i: int| i as usize), n as int).len() == n,
{
    let parents = Seq::new(n, |i: int| i as usize);
    let a = assignment_spec(parents, n as int);
    assert(a =~= parents);
    lemma_identity_distinct(parents, n as int);
    assert(parents.take(n as int) =~= parents);
}

/// The first `upto` values of the identity sequence are distinct.
proof fn lemma_identity_distinct(s: Seq<usize>, upto: int)
    requires
        0 <= upto <= s.len(),
        forall|i: int| 0 <= i < s.len() ==> #[trigger] s[i] == i,
    ensures
        distinct(s.take(upto)) == s.take(upto),
    decreases upto,
{
    if upto > 0 {
        lemma_identity_distinct(s, upto - 1);
        let t = s.take(upto);
        assert(t.drop_last() =~= s.take(upto - 1));
        let d = distinct(t.drop_last());
        if d.contains(t.last()) {
            let w = choose|w: int| 0 <= w < d.len() && d[w] == t.last();
            assert(d[w] == s[w]);
        }
        assert(d.push(t.last()) =~= t);
    } else {
        assert(s.take(0) =~= Seq::<usize>::empty());
    }
}

/// The merges `ops` were each the merge of a best pair in the forest that
/// the merges before left.
pub open spec fn is_merge_trace(dist: Seq<u64>, n: usize, ops: Seq<ClusteringOperation>) -> bool {
    forall|t: int|
        0 <= t < ops.len() ==> #[trigger] is_merge_step(
            forest_after(n, ops.take(t)),
            dist,
            n,
            ops[t],
        )
}

/// What holds of the root `id` once `t` merges are replayed: it stands for
/// instances only, for none twice, and for exactly those beneath it.
pub open spec fn group_ok(n: usize, ops: Seq<ClusteringOperation>, t: int, id: usize) -> bool {
    let forest = forest_after(n, ops.take(t));
    let group = resolve(ops, t, id);
    &&& group.no_duplicates()
    &&& forall|x: usize|
        group.contains(x) <==> x < n && root_of(forest, x as int) == id
}

/// A sequence of instances keeps all its ids.
pub proof fn lemma_leaves_only_all(s: Seq<usize>, n: usize)
    requires
        forall|k: int| 0 <= k < s.len() ==> #[trigger] s[k] < n,
    ensures
        leaves_only(s, n) == s,
    decreases s.len(),
{
    if s.len() > 0 {
        lemma_leaves_only_all(s.drop_last(), n);
        assert(s.drop_last().push(s.last()) =~= s);
    }
}

/// After `t` merges of a trace the forest has `n + t` nodes and `n - t`
/// clusters, and every root stands for exactly the instances beneath it.
pub proof fn lemma_trace(dist: Seq<u64>, n: usize, ops: Seq<ClusteringOperation>, t: int)
    requires
        is_merge_trace(dist, n, ops),
        0 <= t <= ops.len(),
        2 * n <= usize::MAX,
    ensures
        forest_wf(forest_after(n, ops.take(t))),
        forest_after(n, ops.take(t)).len() == n + t,
        clusters_spec(forest_after(n, ops.take(t)), n as int).len() + t == n,
        forall|id: usize|
            id < n + t && forest_after(n, ops.take(t))[id as int] == id ==> #[trigger] group_ok(
                n,
                ops,
                t,
                id,
            ),
    decreases t,
{
    let forest = forest_after(n, ops.take(t));
    if t == 0 {
        lemma_singletons(n as nat);
        assert(ops.take(0) =~= Seq::<ClusteringOperation>::empty());
        assert forall|id: usize| id < n + t && forest[id as int] == id implies #[trigger] group_ok(
            n,
            ops,
            t,
            id,
        ) by {
            let group = resolve(ops, t, id);
            assert(group =~= seq![id]);
            assert(group[0] == id);
            assert forall|x: usize| group.contains(x) <==> x < n && root_of(forest, x as int)
                == id by {
                if x < n {
                    assert(root_of(forest, x as int) == x);
                }
                if group.contains(x) {
                    let w = choose|w: int| 0 <= w < group.len() && group[w] == x;
                    assert(x == id);
                }
            }
        }
    } else {
        lemma_trace(dist, n, ops, t - 1);
        let before = forest_after(n, ops.take(t - 1));
        let op = ops[t - 1];
        assert(ops.take(t).drop_last() =~= ops.take(t - 1));
        assert(ops.take(t).last() == op);
        assert(is_merge_step(before, dist, n, op));
        let a = assignment_spec(before, n as int);
        let roots = clusters_spec(before, n as int);
        let (bi, bj) = choose|bi: int, bj: int|
            {
                &&& #[trigger] is_first_min_pair(dist, a, roots, bi, bj)
                &&& op.merge_i == roots[bi]
                &&& op.merge_j == roots[bj]
                &&& op.distance == linkage_spec(dist, a, roots[bi], roots[bj])
            };
        let p = op.merge_i;
        let q = op.merge_j;
        let k = op.into;
        assert(roots.len() >= 2);
        assert(t - 1 + 2 <= n);
        lemma_distinct(a);
        assert(roots.contains(p));
        assert(roots.contains(q));
        assert(p != q);
        assert(a.contains(p));
        assert(a.contains(q));
        let wp = choose|w: int| 0 <= w < a.len() && a[w] == p;
        lemma_root_step(before, wp);
        let wq = choose|w: int| 0 <= w < a.len() && a[w] == q;
        lemma_root_step(before, wq);
        assert(forest == merged_forest(before, p, q));
        lemma_merged_forest_wf(before, p, q);
        let b = assignment_spec(forest, n as int);
        assert forall|x: int| 0 <= x < a.len() implies #[trigger] b[x] == if a[x] == p || a[x]
            == q {
            k
        } else {
            a[x]
        } by {
            lemma_root_after_merge(before, p, q, x);
            lemma_root_step(before, x);
        }
        assert(!a.contains(k)) by {
            if a.contains(k) {
                let w = choose|w: int| 0 <= w < a.len() && a[w] == k;
                lemma_root_step(before, w);
            }
        }
        lemma_distinct_after_merge(a, b, p, q, k);
        assert(group_ok(n, ops, t - 1, p));
        assert(group_ok(n, ops, t - 1, q));
        assert forall|id: usize| id < n + t && forest[id as int] == id implies #[trigger] group_ok(
            n,
            ops,
            t,
            id,
        ) by {
            let group = resolve(ops, t, id);
            if id == k {
                let gp = resolve(ops, t - 1, p);
                let gq = resolve(ops, t - 1, q);
                assert(group == gp + gq);
                assert forall|x: usize| group.contains(x) <==> x < n && root_of(forest, x as int)
                    == id by {
                    if x < n {
                        lemma_root_after_merge(before, p, q, x as int);
                        lemma_root_step(before, x as int);
                    }
                    if group.contains(x) {
                        let w = choose|w: int| 0 <= w < group.len() && group[w] == x;
                        if w < gp.len() {
                            assert(gp[w] == x);
                            assert(gp.contains(x));
                        } else {
                            assert(gq[w - gp.len()] == x);
                            assert(gq.contains(x));
                        }
                    }
                    if x < n && root_of(forest, x as int) == id {
                        if root_of(before, x as int) == p {
                            assert(gp.contains(x));
                            let w = choose|w: int| 0 <= w < gp.len() && gp[w] == x;
                            assert(group[w] == x);
                        } else {
                            assert(gq.contains(x));
                            let w = choose|w: int| 0 <= w < gq.len() && gq[w] == x;
                            assert(group[gp.len() + w] == x);
                        }
                    }
                }
                assert forall|u: int, v: int|
                    0 <= u < group.len() && 0 <= v < group.len() && u != v implies group[u]
                    != group[v] by {
                    if u < gp.len() && v >= gp.len() {
                        assert(gp.contains(gp[u]));
                        assert(gq.contains(gq[v - gp.len()]));
                    }
                    if v < gp.len() && u >= gp.len() {
                        assert(gp.contains(gp[v]));
                        assert(gq.contains(gq[u - gp.len()]));
                    }
                }
            } else {
                assert(forest[id as int] == before[id as int]);
                assert(group_ok(n, ops, t - 1, id));
                assert(group == resolve(ops, t - 1, id));
                assert forall|x: usize| group.contains(x) <==> x < n && root_of(forest, x as int)
                    == id by {
                    if x < n {
                        lemma_root_after_merge(before, p, q, x as int);
                        lemma_root_step(before, x as int);
                    }
                }
            }
        }
    }
}

/// The reconstructed cluster `id` holds no instance twice, and holds
/// exactly the instances that stand beneath `id` after the merges.
pub open spec fn holds_its_instances(n: usize, ops: Seq<ClusteringOperation>, id: usize) -> bool {
    let forest = forest_after(n, ops);
    let group = cluster_set(ops, id, n);
    &&& group.no_duplicates()
    &&& forall|x: usize| group.contains(x) <==> x < n && root_of(forest, x as int) == id
}

/// After the merges of a trace, every instance stands in exactly one
/// reconstructed cluster, once: no two of the remaining clusters are the
/// same, every instance stands beneath one of them, and each of them holds
/// exactly the instances beneath it, none twice. The number of merges is
/// the number of instances less the number of clusters that remain.
pub proof fn lemma_clusters_partition(dist: Seq<u64>, n: usize, ops: Seq<ClusteringOperation>)
    requires
        is_merge_trace(dist, n, ops),
        2 * n <= usize::MAX,
    ensures
        ops.len() + clusters_spec(forest_after(n, ops), n as int).len() == n,
        clusters_spec(forest_after(n, ops), n as int).no_duplicates(),
        forall|x: int|
            0 <= x < n ==> clusters_spec(forest_after(n, ops), n as int).contains(
                #[trigger] assignment_spec(forest_after(n, ops), n as int)[x],
            ),
        forall|c: int|
            0 <= c < clusters_spec(forest_after(n, ops), n as int).len()
                ==> #[trigger] holds_its_instances(
                n,
                ops,
                clusters_spec(forest_after(n, ops), n as int)[c],
            ),
{
    let t = ops.len() as int;
    assert(ops.take(t) =~= ops);
    lemma_trace(dist, n, ops, t);
    let forest = forest_after(n, ops);
    let a = assignment_spec(forest, n as int);
    let roots = clusters_spec(forest, n as int);
    lemma_distinct(a);
    assert forall|x: int| 0 <= x < n implies roots.contains(#[trigger] a[x]) by {
        assert(a.contains(a[x]));
    }
    assert forall|c: int| 0 <= c < roots.len() implies #[trigger] holds_its_instances(
        n,
        ops,
        roots[c],
    ) by {
        let id = roots[c];
        assert(roots.contains(id));
        assert(a.contains(id));
        let w = choose|w: int| 0 <= w < a.len() && a[w] == id;
        lemma_root_step(forest, w);
        assert(group_ok(n, ops, t, id));
        let group = resolve(ops, t, id);
        assert forall|k: int| 0 <= k < group.len() implies #[trigger] group[k] < n by {
            assert(group.contains(group[k]));
        }
        lemma_leaves_only_all(group, n);
    }
}

} // verus!
