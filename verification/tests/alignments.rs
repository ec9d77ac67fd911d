use pattern_discovery::alignments::{
    distance, warping_path, Alignment, AlignmentLabel, AlignmentParams,
};
use pattern_discovery::numerics::INFINITY;
use pattern_discovery::spectrogram::NDSequence;

fn sequence(values: &[i32]) -> NDSequence {
    NDSequence::from_frames(1, values.to_vec(), 0)
}

#[test]
fn identical_sequences_align_on_the_diagonal() {
    let x = sequence(&[0, 1, 2]);
    let y = sequence(&[0, 1, 2]);
    let params = AlignmentParams {
        warping_band: 3,
        insertion_penalty: 1,
        deletion_penalty: 1,
        match_penalty: 1,
    };
    let mut alignment = Alignment::new();
    alignment.construct_alignment(&x, &y, &params);
    let path = alignment.path();
    assert_eq!(path.len(), 3);
    for (t, node) in path.iter().enumerate() {
        assert_eq!(node.label, AlignmentLabel::Match);
        assert_eq!(node.cur(), (t + 1, t + 1));
        assert_eq!(node.prev(), (t, t));
        assert_eq!(node.score, 0);
        assert_eq!(node.cost, 0);
    }
    assert_eq!(alignment.get(3, 3).unwrap().cost, 0);
    assert_eq!(alignment.score(), 0);
}

#[test]
fn empty_sequence_is_out_of_reach() {
    let x = sequence(&[]);
    let y = sequence(&[1, 2]);
    let params = AlignmentParams::default(2);
    let mut alignment = Alignment::new();
    alignment.construct_alignment(&x, &y, &params);
    assert_eq!(alignment.score(), INFINITY);
    assert!(alignment.path().is_empty());
    let fresh = Alignment::new();
    assert_eq!(fresh.score(), INFINITY);
}

fn unit_params(band: usize) -> AlignmentParams {
    AlignmentParams { warping_band: band, insertion_penalty: 1, deletion_penalty: 1, match_penalty: 1 }
}

fn score_of(x: &NDSequence, y: &NDSequence, params: &AlignmentParams) -> u64 {
    let mut alignment = Alignment::new();
    alignment.construct_alignment(x, y, params);
    alignment.score()
}

#[test]
fn score_is_the_cost_by_the_sum_of_the_lengths() {
    // one frame against one frame: a single match of distance 7
    let x = sequence(&[0]);
    let y = sequence(&[7]);
    let mut alignment = Alignment::new();
    alignment.construct_alignment(&x, &y, &unit_params(1));
    let last = alignment.get(1, 1).unwrap();
    assert_eq!(last.cost, 7);
    assert_eq!(last.score, 7);
    assert_eq!(last.label, AlignmentLabel::Match);
    assert_eq!(alignment.score(), 3);
    assert_eq!(alignment.n, 1);
    assert_eq!(alignment.m, 1);
}

#[test]
fn penalties_weigh_the_edits() {
    let x = sequence(&[0]);
    let y = sequence(&[2]);
    let params = AlignmentParams {
        warping_band: 1,
        insertion_penalty: 1,
        deletion_penalty: 1,
        match_penalty: 5,
    };
    let mut alignment = Alignment::new();
    alignment.construct_alignment(&x, &y, &params);
    assert_eq!(alignment.get(1, 1).unwrap().cost, 10);
    assert_eq!(alignment.score(), 5);
}

#[test]
fn a_longer_sequence_needs_deletions() {
    // x = [0], y = [0, 0, 5]: match, then two deletions along the row
    let x = sequence(&[0]);
    let y = sequence(&[0, 0, 5]);
    let mut alignment = Alignment::new();
    alignment.construct_alignment(&x, &y, &unit_params(0));
    let path = alignment.path();
    let labels: Vec<AlignmentLabel> = path.iter().map(|node| node.label).collect();
    assert_eq!(
        labels,
        vec![AlignmentLabel::Match, AlignmentLabel::Deletion, AlignmentLabel::Deletion]
    );
    let cells: Vec<(usize, usize)> = path.iter().map(|node| node.cur()).collect();
    assert_eq!(cells, vec![(1, 1), (1, 2), (1, 3)]);
    assert_eq!(path[2].cost, 5);
    assert_eq!(alignment.score(), 1);
    // and the other way round two insertions along the column
    let mut alignment = Alignment::new();
    alignment.construct_alignment(&y, &x, &unit_params(0));
    let labels: Vec<AlignmentLabel> = alignment.path().iter().map(|node| node.label).collect();
    assert_eq!(
        labels,
        vec![AlignmentLabel::Match, AlignmentLabel::Insertion, AlignmentLabel::Insertion]
    );
    assert_eq!(alignment.score(), 1);
}

#[test]
fn cells_outside_the_band_are_absent() {
    let x = sequence(&[0, 0, 0, 0, 0, 0]);
    let y = sequence(&[0, 0, 0, 0, 0, 0]);
    let mut alignment = Alignment::new();
    alignment.construct_alignment(&x, &y, &unit_params(0));
    // the band reaches two cells to either side of the diagonal
    assert!(alignment.get(1, 3).is_some());
    assert!(alignment.get(1, 4).is_none());
    assert!(alignment.get(4, 1).is_none());
    assert!(alignment.get(3, 1).is_some());
    assert!(alignment.get(0, 0).is_some());
    assert!(alignment.get(0, 1).is_none());
    assert!(alignment.get(1, 0).is_none());
    assert!(alignment.get(7, 7).is_none());
}

#[test]
fn scores_are_symmetric_under_equal_penalties() {
    let x = NDSequence::from_frames(2, vec![0, 0, 3, 4, 10, 10, 2, 1], 0);
    let y = NDSequence::from_frames(2, vec![1, 1, 9, 9, 3, 3], 1);
    for band in [0usize, 1, 2, 4, 8] {
        let params = AlignmentParams {
            warping_band: band,
            insertion_penalty: 2,
            deletion_penalty: 2,
            match_penalty: 1,
        };
        assert_eq!(score_of(&x, &y, &params), score_of(&y, &x, &params));
    }
}

#[test]
fn default_parameters_have_unit_penalties() {
    let params = AlignmentParams::default(12);
    assert_eq!(params.warping_band, 12);
    assert_eq!(params.insertion_penalty, 1);
    assert_eq!(params.deletion_penalty, 1);
    assert_eq!(params.match_penalty, 1);
}

#[test]
fn best_node_prefers_the_match_on_ties() {
    let origin = Alignment::new().get(0, 0).unwrap();
    let params = unit_params(1);
    // all three the same: match
    let node = Alignment::alignment_score(
        1,
        1,
        Some(origin),
        Some(origin),
        Some(origin),
        4,
        &params,
    );
    assert_eq!(node.label, AlignmentLabel::Match);
    assert_eq!(node.cost, 4);
    assert_eq!(node.prev(), (0, 0));
    // only the deletion can be reached
    let node = Alignment::alignment_score(1, 2, Some(origin), None, None, 4, &params);
    assert_eq!(node.label, AlignmentLabel::Deletion);
    assert_eq!(node.prev(), (1, 1));
    // only the insertion can be reached
    let node = Alignment::alignment_score(2, 1, None, Some(origin), None, 4, &params);
    assert_eq!(node.label, AlignmentLabel::Insertion);
    assert_eq!(node.prev(), (1, 1));
    // nothing can be reached
    let node = Alignment::alignment_score(2, 2, None, None, None, 4, &params);
    assert_eq!(node.label, AlignmentLabel::Match);
    assert_eq!(node.cost, INFINITY);
}

#[test]
fn distance_and_path_of_two_sequences() {
    let x = sequence(&[0, 0, 10]);
    let y = sequence(&[0, 10]);
    let params = unit_params(3);
    assert_eq!(distance(&x, &y, &params), score_of(&x, &y, &params));
    assert_eq!(distance(&x, &y, &params), 0);
    let cells: Vec<(usize, usize)> =
        warping_path(&x, &y, &params).iter().map(|node| node.cur()).collect();
    assert_eq!(cells, vec![(1, 1), (2, 1), (3, 2)]);
    // unequal penalties break the symmetry
    let skewed = AlignmentParams {
        warping_band: 3,
        insertion_penalty: 1,
        deletion_penalty: 3,
        match_penalty: 1,
    };
    let short = sequence(&[0]);
    let long = sequence(&[0, 5]);
    assert_eq!(distance(&short, &long, &skewed), 5);
    assert_eq!(distance(&long, &short, &skewed), 1);
}
