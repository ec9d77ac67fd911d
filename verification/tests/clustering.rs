use pattern_discovery::clustering::{AgglomerativeClustering, ClusteringOperation, Merge};
use pattern_discovery::numerics::INFINITY;

/// A, B, C, D with A next to B and C next to D, and all else far apart.
fn two_pairs() -> Vec<u64> {
    vec![
        0, 1, 100, 100, //
        1, 0, 100, 100, //
        100, 100, 0, 1, //
        100, 100, 1, 0,
    ]
}

#[test]
fn two_pairs_yield_two_clusters() {
    let (operations, clusters) = AgglomerativeClustering::clustering(two_pairs(), 4, 500);
    assert_eq!(operations.len(), 2);
    assert_eq!(clusters, vec![4, 5]);
    let first = &operations[0];
    assert_eq!((first.merge_i, first.merge_j, first.into), (0, 1, 4));
    assert_eq!(first.distance, 1);
    assert_eq!(first.operation, Merge::Sequence2Sequence);
    let second = &operations[1];
    assert_eq!((second.merge_i, second.merge_j, second.into), (2, 3, 5));
    assert_eq!(second.distance, 1);
    let grouped = AgglomerativeClustering::cluster_sets(&operations, &clusters, 4);
    assert_eq!(grouped, vec![vec![0, 1], vec![2, 3]]);
}

#[test]
fn merges_and_clusters_add_up_to_the_instances() {
    for perc in [0u64, 100, 500, 900, 999] {
        let (operations, clusters) = AgglomerativeClustering::clustering(two_pairs(), 4, perc);
        assert_eq!(operations.len() + clusters.len(), 4);
        let grouped = AgglomerativeClustering::cluster_sets(&operations, &clusters, 4);
        let mut seen = vec![0usize; 4];
        for group in &grouped {
            for leaf in group {
                seen[*leaf] += 1;
            }
        }
        assert_eq!(seen, vec![1, 1, 1, 1]);
    }
}

#[test]
fn a_low_threshold_merges_nothing() {
    // the least of the distances is the threshold, and no linkage lies below it
    let (operations, clusters) = AgglomerativeClustering::clustering(two_pairs(), 4, 0);
    assert!(operations.is_empty());
    assert_eq!(clusters, vec![0, 1, 2, 3]);
    let grouped = AgglomerativeClustering::cluster_sets(&operations, &clusters, 4);
    assert_eq!(grouped, vec![vec![0], vec![1], vec![2], vec![3]]);
}

#[test]
fn few_instances_need_no_merge() {
    let (operations, clusters) = AgglomerativeClustering::clustering(vec![], 0, 500);
    assert!(operations.is_empty());
    assert!(clusters.is_empty());
    let (operations, clusters) = AgglomerativeClustering::clustering(vec![0], 1, 500);
    assert!(operations.is_empty());
    assert_eq!(clusters, vec![0]);
}

#[test]
fn merge_steps_build_the_forest() {
    let mut dendogram = AgglomerativeClustering::new(two_pairs(), 4);
    assert_eq!(dendogram.n_clusters, 4);
    assert_eq!(dendogram.clusters(), vec![0, 1, 2, 3]);
    assert_eq!(dendogram.best_merge(), (0, 1, 1));
    let op = dendogram.merge();
    assert_eq!((op.merge_i, op.merge_j, op.into, op.distance), (0, 1, 4, 1));
    assert_eq!(dendogram.parents, vec![4, 4, 2, 3, 4]);
    assert_eq!(dendogram.assignment(), vec![4, 4, 2, 3]);
    assert_eq!(dendogram.clusters(), vec![4, 2, 3]);
    assert_eq!(dendogram.cluster(1), 4);
    assert_eq!(dendogram.n_clusters, 3);
    let op = dendogram.merge();
    assert_eq!((op.merge_i, op.merge_j, op.into, op.distance), (2, 3, 5, 1));
    assert_eq!(op.operation, Merge::Sequence2Sequence);
    let op = dendogram.merge();
    assert_eq!((op.merge_i, op.merge_j, op.into, op.distance), (4, 5, 6, 100));
    assert_eq!(op.operation, Merge::Cluster2Cluster);
    assert_eq!(dendogram.clusters(), vec![6]);
    assert_eq!(dendogram.n_clusters, 1);
}

#[test]
fn merge_kinds_tell_instances_from_clusters() {
    // 0 and 1 are close, 2 is nearer to 0 than to 1
    let distances = vec![
        0, 1, 4, //
        1, 0, 8, //
        4, 8, 0,
    ];
    let mut dendogram = AgglomerativeClustering::new(distances, 3);
    let first = dendogram.merge();
    assert_eq!(first.operation, Merge::Sequence2Sequence);
    let second = dendogram.merge();
    assert_eq!((second.merge_i, second.merge_j, second.into), (3, 2, 4));
    assert_eq!(second.distance, 6);
    assert_eq!(second.operation, Merge::Cluster2Sequence);
}

#[test]
fn linkage_is_the_mean_of_the_stored_distances() {
    // not symmetric: the entries are taken as they are stored
    let distances = vec![
        0, 3, 10, //
        5, 0, 20, //
        30, 41, 0,
    ];
    let dendogram = AgglomerativeClustering::new(distances, 3);
    assert_eq!(dendogram.linkage(&vec![0, 0, 2], 0, 2), 15);
    assert_eq!(dendogram.linkage(&vec![0, 0, 2], 2, 0), 35);
    assert_eq!(dendogram.linkage(&vec![0, 1, 2], 0, 1), 3);
    assert_eq!(dendogram.linkage(&vec![0, 1, 2], 1, 0), 5);
    // a cluster without members is out of reach
    assert_eq!(dendogram.linkage(&vec![0, 1, 2], 7, 0), INFINITY);
}

#[test]
fn unreachable_distances_keep_the_linkage_out_of_reach() {
    let distances = vec![
        0, INFINITY, //
        INFINITY, 0,
    ];
    let mut dendogram = AgglomerativeClustering::new(distances, 2);
    assert_eq!(dendogram.best_merge(), (0, 1, INFINITY));
    let op = dendogram.merge();
    assert_eq!((op.merge_i, op.merge_j, op.into, op.distance), (0, 1, 2, INFINITY));
}

#[test]
fn replay_resolves_nested_clusters() {
    let operations = vec![
        ClusteringOperation {
            merge_i: 0,
            merge_j: 1,
            into: 4,
            distance: 1,
            operation: Merge::Sequence2Sequence,
        },
        ClusteringOperation {
            merge_i: 4,
            merge_j: 3,
            into: 5,
            distance: 2,
            operation: Merge::Cluster2Sequence,
        },
    ];
    let grouped = AgglomerativeClustering::cluster_sets(&operations, &vec![5, 2, 4], 4);
    assert_eq!(grouped, vec![vec![0, 1, 3], vec![2], vec![0, 1]]);
    // ids that are no instances are left out of a group
    let grouped = AgglomerativeClustering::cluster_sets(&operations, &vec![5, 9], 2);
    assert_eq!(grouped, vec![vec![0, 1], vec![]]);
}
