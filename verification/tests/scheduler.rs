use pattern_discovery::alignments::{Alignment, AlignmentWorkers};
use pattern_discovery::discovery::Discovery;
use pattern_discovery::spectrogram::NDSequence;

fn options(workers: usize) -> Discovery {
    Discovery {
        dft_win: 256,
        dft_step: 128,
        ceps_filter: 4,
        vat_moving: 3,
        vat_percentile: 500,
        vat_min_len: 2,
        alignment_workers: workers,
        clustering_percentile: 500,
        merging_percentile: 500,
        merging_internal_percentile: 100,
        merging_moving: 2,
        warping_band_percentage: 500,
        insertion_penalty: 1,
        deletion_penalty: 1,
        match_penalty: 1,
    }
}

fn corpus() -> Vec<NDSequence> {
    vec![
        NDSequence::from_frames(1, vec![0, 1, 2], 0),
        NDSequence::from_frames(1, vec![0, 1, 2, 3], 1),
        NDSequence::from_frames(1, vec![40, 50], 2),
    ]
}

#[test]
fn alignment_params_scale_the_band() {
    let params = options(2).alignment_params(9);
    assert_eq!(params.warping_band, 4);
    assert_eq!(params.insertion_penalty, 1);
    assert_eq!(params.deletion_penalty, 1);
    assert_eq!(params.match_penalty, 1);
    let mut wide = options(2);
    wide.warping_band_percentage = 2000;
    assert_eq!(wide.alignment_params(9).warping_band, 18);
    wide.warping_band_percentage = u64::MAX;
    assert_eq!(wide.alignment_params(usize::MAX).warping_band, usize::MAX);
}

#[test]
fn batches_share_the_rows() {
    // ten rows and three workers: four rows to a batch
    assert_eq!(AlignmentWorkers::batch_bounds(10, 3, 0), (0, 4));
    assert_eq!(AlignmentWorkers::batch_bounds(10, 3, 1), (4, 8));
    assert_eq!(AlignmentWorkers::batch_bounds(10, 3, 2), (8, 10));
    // more workers than rows: the later ones have nothing to do
    assert_eq!(AlignmentWorkers::batch_bounds(2, 4, 0), (0, 1));
    assert_eq!(AlignmentWorkers::batch_bounds(2, 4, 1), (1, 2));
    assert_eq!(AlignmentWorkers::batch_bounds(2, 4, 2), (2, 2));
    assert_eq!(AlignmentWorkers::batch_bounds(2, 4, 3), (2, 2));
    for (n, workers) in [(0usize, 1usize), (1, 1), (7, 2), (8, 8), (9, 4), (100, 7)] {
        let mut covered = vec![0usize; n];
        for batch in 0..workers {
            let (start, stop) = AlignmentWorkers::batch_bounds(n, workers, batch);
            for row in start..stop {
                covered[row] += 1;
            }
        }
        assert!(covered.iter().all(|count| *count == 1));
    }
}

#[test]
fn all_pairs_are_aligned() {
    let params = options(2);
    let mut workers = AlignmentWorkers::new(corpus());
    assert_eq!(workers.result, vec![0; 9]);
    workers.align_all(&params);
    let data = corpus();
    for i in 0..3 {
        for j in 0..3 {
            if i != j {
                let len = usize::max(data[i].len(), data[j].len());
                let mut alignment = Alignment::new();
                alignment.construct_alignment(&data[i], &data[j], &params.alignment_params(len));
                assert_eq!(workers.result[i * 3 + j], alignment.score());
            } else {
                assert_eq!(workers.result[i * 3 + j], 0);
            }
        }
    }
    // [0,1,2] against [0,1,2,3]: three matches and a last step of distance one
    assert_eq!(workers.result[1], 0);
    assert_eq!(workers.result[3], 0);
    // [0,1,2] against [40,50]: 40 + 39 + 48 over five frames
    assert_eq!(workers.result[2], 25);
}

#[test]
fn workers_contribute_their_rows() {
    let params = options(2);
    let mut whole = AlignmentWorkers::new(corpus());
    whole.align_all(&params);
    let mut parts = AlignmentWorkers::new(corpus());
    for batch in 0..2 {
        let (start, stop) = AlignmentWorkers::batch_bounds(3, 2, batch);
        let rows = parts.align_rows(start, stop, &params);
        assert_eq!(rows.len(), (stop - start) * 3);
        parts.store_rows(start, &rows);
    }
    assert_eq!(parts.result, whole.result);
    assert_eq!(parts.align_row(0, &params), whole.result[0..3].to_vec());
}
