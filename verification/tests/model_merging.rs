use pattern_discovery::aligned_model_merging::{average, MergeOperation, ModelMerging};
use pattern_discovery::alignments::{Alignment, AlignmentLabel, AlignmentNode, AlignmentParams};
use pattern_discovery::spectrogram::{NDSequence, Slice};

fn a() -> NDSequence {
    NDSequence::from_frames(1, vec![0, 0, 10], 0)
}

fn b() -> NDSequence {
    NDSequence::from_frames(1, vec![0, 10], 1)
}

fn path_between(x: &NDSequence, y: &NDSequence) -> Vec<AlignmentNode> {
    let params = AlignmentParams {
        warping_band: 3,
        insertion_penalty: 1,
        deletion_penalty: 1,
        match_penalty: 1,
    };
    let mut alignment = Alignment::new();
    alignment.construct_alignment(x, y, &params);
    alignment.path()
}

#[test]
fn chain_has_a_state_for_every_frame() {
    let (a, b) = (a(), b());
    let slices = vec![Slice::new(0, 3, &a), Slice::new(0, 2, &b)];
    let model = ModelMerging::from_slices(&slices);
    assert_eq!(model.hmm.n_states, 5);
    assert_eq!(model.hmm.dim, 1);
    assert_eq!(model.state_map, vec![0, 3, 5]);
    assert_eq!(model.merge_parent, vec![0, 1, 2, 3, 4]);
    assert_eq!(model.hmm.start, vec![1, 0, 0, 1, 0]);
    assert_eq!(model.hmm.stop, vec![0, 0, 1, 0, 1]);
    assert_eq!(model.hmm.states, vec![0, 0, 10, 0, 10]);
    assert_eq!(model.hmm.is_segmental, vec![false; 5]);
    let mut trans = vec![0u64; 25];
    trans[0 * 5 + 1] = 1;
    trans[1 * 5 + 2] = 1;
    trans[3 * 5 + 4] = 1;
    assert_eq!(model.hmm.trans, trans);
    assert_eq!(model.hmm.trans_total, vec![1; 5]);
    assert_eq!(model.hmm.start_total, 1);
    assert_eq!(model.hmm.stop_total, 1);
}

#[test]
fn chain_of_part_of_a_sequence() {
    let a = NDSequence::from_frames(2, vec![1, 2, 3, 4, 5, 6, 7, 8], 0);
    let slices = vec![Slice::new(1, 3, &a), Slice::new(2, 2, &a), Slice::new(3, 4, &a)];
    let model = ModelMerging::from_slices(&slices);
    assert_eq!(model.hmm.n_states, 3);
    assert_eq!(model.hmm.dim, 2);
    assert_eq!(model.state_map, vec![0, 2, 2, 3]);
    assert_eq!(model.hmm.states, vec![3, 4, 5, 6, 7, 8]);
    assert_eq!(model.hmm.start, vec![1, 0, 1]);
    assert_eq!(model.hmm.stop, vec![0, 1, 1]);
}

#[test]
fn merge_absorbs_the_larger_state() {
    let (a, b) = (a(), b());
    let slices = vec![Slice::new(0, 3, &a), Slice::new(0, 2, &b)];
    let mut model = ModelMerging::from_slices(&slices);
    model.merge(1, 0, false);
    assert_eq!(model.merge_parent, vec![0, 0, 2, 3, 4]);
    assert_eq!(model.find_parent(1), 0);
    assert_eq!(model.hmm.trans[0..5], [2, 1, 1, 0, 0]);
    assert_eq!(model.hmm.start, vec![1, 0, 0, 1, 0]);
    assert_eq!(model.hmm.is_segmental[0], false);
    model.merge(4, 2, true);
    assert_eq!(model.merge_parent, vec![0, 0, 2, 3, 2]);
    assert_eq!(model.find_parent(4), 2);
    assert_eq!(model.hmm.trans[0 * 5 + 2], 1);
    assert_eq!(model.hmm.trans[3 * 5 + 2], 1);
    assert_eq!(model.hmm.trans[2 * 5 + 2], 1);
    assert_eq!(model.hmm.stop, vec![0, 0, 2, 0, 1]);
    assert_eq!(model.hmm.is_segmental, vec![false, false, true, false, false]);
    // a state merged with itself stays as it is
    let before = model.hmm.trans.clone();
    model.merge(2, 2, true);
    assert_eq!(model.hmm.trans, before);
    let compact = model.shrink();
    assert_eq!(compact.n_states, 3);
    assert_eq!(compact.trans, vec![2, 1, 0, 0, 1, 0, 0, 1, 0]);
    assert_eq!(compact.trans_total, vec![3, 1, 1]);
    assert_eq!(compact.start, vec![1, 0, 1]);
    assert_eq!(compact.start_total, 2);
    assert_eq!(compact.stop, vec![0, 2, 0]);
    assert_eq!(compact.stop_total, 2);
    assert_eq!(compact.states, vec![0, 10, 0]);
    assert_eq!(compact.is_segmental, vec![false, true, false]);
}

#[test]
fn find_parent_is_idempotent_and_the_smaller_root_survives() {
    let a = NDSequence::from_frames(1, vec![0, 1, 2, 3, 4, 5], 0);
    let slices = vec![Slice::new(0, 6, &a)];
    let mut model = ModelMerging::from_slices(&slices);
    let pairs = [(5usize, 4usize), (2, 3), (4, 2), (1, 5), (0, 0)];
    for (i, j) in pairs {
        let (root_i, root_j) = (model.find_parent(i), model.find_parent(j));
        model.merge(root_i, root_j, true);
        let survivor = usize::min(root_i, root_j);
        assert_eq!(model.find_parent(i), survivor);
        assert_eq!(model.find_parent(j), survivor);
        for s in 0..6 {
            let root = model.find_parent(s);
            assert_eq!(model.find_parent(root), root);
        }
    }
    assert_eq!(model.merge_parent, vec![0, 1, 1, 2, 2, 4]);
}

#[test]
fn features_are_averaged_towards_zero() {
    assert_eq!(average(4, 8), 6);
    assert_eq!(average(3, 4), 3);
    assert_eq!(average(-3, -4), -3);
    assert_eq!(average(-3, 4), 0);
    assert_eq!(average(i32::MAX, i32::MAX), i32::MAX);
    assert_eq!(average(i32::MIN, i32::MIN), i32::MIN);
}

#[test]
fn an_alignment_yields_merge_candidates() {
    let (a, b) = (a(), b());
    let slices = vec![Slice::new(0, 3, &a), Slice::new(0, 2, &b)];
    let path = path_between(&a, &b);
    let steps: Vec<(usize, usize, AlignmentLabel, u64)> =
        path.iter().map(|node| (node.i, node.j, node.label, node.score)).collect();
    assert_eq!(
        steps,
        vec![
            (1, 1, AlignmentLabel::Match, 0),
            (2, 1, AlignmentLabel::Insertion, 0),
            (3, 2, AlignmentLabel::Match, 0),
        ]
    );
    let pairs = |ops: &Vec<MergeOperation>| -> Vec<(usize, usize, usize, usize, u64, bool)> {
        ops.iter()
            .map(|op| (op.slice_i, op.i, op.slice_j, op.j, op.dist, op.is_from_alignment))
            .collect()
    };
    let ops = ModelMerging::merges_from_alignment(0, 1, &slices, &path, 500, 5, 1);
    assert_eq!(pairs(&ops), vec![(0, 0, 1, 0, 0, true), (0, 2, 1, 1, 0, true)]);
    // with a higher threshold within the members the second frame of the
    // first member joins the frame before it
    let ops = ModelMerging::merges_from_alignment(0, 1, &slices, &path, 999, 5, 1);
    assert_eq!(
        pairs(&ops),
        vec![(0, 0, 1, 0, 0, true), (0, 1, 0, 0, 0, false), (0, 2, 1, 1, 0, true)]
    );
    // no match lies below a threshold of zero
    let ops = ModelMerging::merges_from_alignment(0, 1, &slices, &path, 500, 0, 1);
    assert!(ops.is_empty());
    // without a window only the first zero steps count, and no mean exists
    let ops = ModelMerging::merges_from_alignment(0, 1, &slices, &path, 500, 5, 0);
    assert!(ops.is_empty());
    let all = ModelMerging::merges_from_alignments(
        &vec![(0, 1, path.clone()), (0, 1, path.clone())],
        &slices,
        500,
        5,
        1,
    );
    assert_eq!(all.len(), 4);
    assert_eq!(ModelMerging::merge_threshold(&vec![(0, 1, path)], 500), Some(0));
    assert_eq!(ModelMerging::merge_threshold(&vec![], 500), None);
}

#[test]
fn smoothing_takes_the_mean_of_the_steps_before() {
    let a = NDSequence::from_frames(1, vec![0, 0, 0, 0], 0);
    let b = NDSequence::from_frames(1, vec![0, 0, 0, 0], 1);
    let slices = vec![Slice::new(0, 4, &a), Slice::new(0, 4, &b)];
    let node = |t: usize, score: u64| AlignmentNode {
        i: t,
        j: t,
        prev_i: t - 1,
        prev_j: t - 1,
        label: AlignmentLabel::Match,
        score,
        cost: 0,
    };
    let path = vec![node(1, 2), node(2, 4), node(3, 9), node(4, 100)];
    // member thresholds of zero: no merge within a member
    let ops = ModelMerging::merges_from_alignment(0, 1, &slices, &path, 0, 1000, 2);
    let dists: Vec<u64> = ops.iter().map(|op| op.dist).collect();
    // two raw distances, then the means of (2, 4) and of (4, 9)
    assert_eq!(dists, vec![2, 4, 3, 6]);
    // a node beyond the frames of a member is passed over
    let path = vec![node(1, 2), node(5, 4)];
    let ops = ModelMerging::merges_from_alignment(0, 1, &slices, &path, 0, 1000, 2);
    assert_eq!(ops.len(), 1);
}

#[test]
fn merging_all_compacts_the_cluster() {
    let (a, b) = (a(), b());
    let slices = vec![Slice::new(0, 3, &a), Slice::new(0, 2, &b)];
    let path = path_between(&a, &b);
    let mut model = ModelMerging::from_slices(&slices);
    model.merge_all(&vec![(0, 1, path)], &slices, 999, 5, 1);
    assert_eq!(model.merge_parent, vec![0, 0, 2, 0, 2]);
    let compact = model.shrink();
    assert_eq!(compact.n_states, 2);
    assert_eq!(compact.dim, 1);
    assert_eq!(compact.trans, vec![3, 2, 0, 1]);
    assert_eq!(compact.start, vec![2, 0]);
    assert_eq!(compact.stop, vec![0, 2]);
    assert_eq!(compact.states, vec![0, 10]);
    assert_eq!(compact.is_segmental, vec![true, true]);
    // every row of transitions, the start and the stop mass sum to one
    for i in 0..compact.n_states {
        let row: u64 = compact.trans[i * 2..(i + 1) * 2].iter().sum();
        assert_eq!(row, compact.trans_total[i]);
    }
    assert_eq!(compact.trans_total, vec![5, 1]);
    assert_eq!(compact.start.iter().sum::<u64>(), compact.start_total);
    assert_eq!(compact.stop.iter().sum::<u64>(), compact.stop_total);
}

#[test]
fn candidates_are_applied_in_their_order() {
    let (a, b) = (a(), b());
    let slices = vec![Slice::new(0, 3, &a), Slice::new(0, 2, &b)];
    let mut model = ModelMerging::from_slices(&slices);
    let ops = vec![
        MergeOperation { slice_i: 1, slice_j: 0, i: 1, j: 2, dist: 0, is_from_alignment: true },
        MergeOperation { slice_i: 0, slice_j: 1, i: 2, j: 1, dist: 0, is_from_alignment: true },
    ];
    model.apply_merges(&ops);
    // the second candidate names two states that are one already
    assert_eq!(model.merge_parent, vec![0, 1, 2, 3, 2]);
    assert_eq!(model.hmm.trans[2 * 5 + 2], 1);
    assert_eq!(model.hmm.stop[2], 2);
}

fn options() -> pattern_discovery::discovery::Discovery {
    pattern_discovery::discovery::Discovery {
        dft_win: 256,
        dft_step: 128,
        ceps_filter: 4,
        vat_moving: 3,
        vat_percentile: 500,
        vat_min_len: 2,
        alignment_workers: 1,
        clustering_percentile: 500,
        merging_percentile: 999,
        merging_internal_percentile: 999,
        merging_moving: 1,
        warping_band_percentage: 1000,
        insertion_penalty: 1,
        deletion_penalty: 1,
        match_penalty: 1,
    }
}

#[test]
fn paths_join_every_later_member_with_every_earlier() {
    let members = vec![a(), b(), a()];
    let paths = ModelMerging::cluster_paths(&members, &options());
    let pairs: Vec<(usize, usize)> = paths.iter().map(|p| (p.0, p.1)).collect();
    assert_eq!(pairs, vec![(1, 0), (2, 0), (2, 1)]);
    // a sequence against itself: one match for every frame
    assert_eq!(paths[1].2.len(), 3);
    assert!(paths[1].2.iter().all(|node| node.label == AlignmentLabel::Match && node.score == 0));
    assert!(ModelMerging::cluster_paths(&vec![a()], &options()).is_empty());
}

#[test]
fn a_cluster_is_compacted_into_a_model() {
    // the two members are merged along their path; the threshold of the
    // paths is zero, and no match lies below it
    let members = vec![a(), b()];
    let model = ModelMerging::cluster_model(&members, &options());
    // within the first member the second frame joins the first
    assert_eq!(model.n_states, 4);
    assert_eq!(model.states, vec![0, 10, 0, 10]);
    assert_eq!(model.trans_total, vec![3, 0, 1, 0]);
    assert_eq!(model.start, vec![1, 0, 1, 0]);
    assert_eq!(model.start_total, 2);
    assert_eq!(model.stop_total, 2);
    // a single member has no path, and stays a chain
    let alone = ModelMerging::cluster_model(&vec![a()], &options());
    assert_eq!(alone.n_states, 3);
    assert_eq!(alone.trans, vec![0, 1, 0, 0, 0, 1, 0, 0, 0]);
    assert_eq!(alone.trans_total, vec![1, 1, 0]);
    assert_eq!(alone.start_total, 1);
}
