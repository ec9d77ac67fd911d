use pattern_discovery::numerics::INFINITY;
use pattern_discovery::spectrogram::{feature_mean, feature_std, NDSequence, Slice};

fn sequence() -> NDSequence {
    NDSequence {
        n_bins: 2,
        frames: vec![1, 2, 3, 4, 5, 6, 7],
        dft_win: 3,
        spectrogram: vec![10, 20, 30, 40, 50, 60, 70, 80, 90],
        audio_id: 4,
    }
}

#[test]
fn frames_are_read_from_the_flat_table() {
    let s = sequence();
    // the seventh value does not make a frame
    assert_eq!(s.len(), 3);
    assert_eq!(s.len_spec(), 3);
    assert_eq!(s.vec(0), [1, 2]);
    assert_eq!(s.vec(2), [5, 6]);
    assert_eq!(s.at(1, 0), 3);
    assert_eq!(s.at(2, 1), 6);
    let bare = NDSequence::from_frames(3, vec![1, 2, 3], 9);
    assert_eq!(bare.len(), 1);
    assert_eq!(bare.audio_id, 9);
    assert!(bare.spectrogram.is_empty());
}

#[test]
fn a_slice_is_a_range_of_frames() {
    let s = sequence();
    let slice = Slice::new(1, 3, &s);
    assert_eq!(slice.len(), 2);
    let part = slice.extract();
    assert_eq!(part.n_bins, 2);
    assert_eq!(part.frames, vec![3, 4, 5, 6]);
    assert_eq!(part.spectrogram, vec![40, 50, 60, 70, 80, 90]);
    assert_eq!(part.dft_win, 3);
    assert_eq!(part.audio_id, 4);
    assert_eq!(part.len(), 2);
    let empty = Slice::new(2, 2, &s).extract();
    assert!(empty.frames.is_empty());
    assert_eq!(empty.len(), 0);
}

#[test]
fn images_are_min_max_normalized() {
    let s = NDSequence {
        n_bins: 1,
        frames: vec![0, 5, 10, -10],
        dft_win: 1,
        spectrogram: vec![7, 7, 7],
        audio_id: 0,
    };
    assert_eq!(s.img_ceps(), vec![127, 191, 255, 0]);
    // a flat image is black
    assert_eq!(s.img_spec(), vec![0, 0, 0]);
    let wide = NDSequence::from_frames(1, vec![i32::MIN, 0, i32::MAX], 0);
    assert_eq!(wide.img_ceps(), vec![0, 127, 255]);
}

#[test]
fn mean_and_deviation_of_features() {
    assert_eq!(feature_mean(&[1, 2, 4]), 2);
    assert_eq!(feature_mean(&[-1, -2, -4]), -2);
    assert_eq!(feature_mean(&[]), 0);
    assert_eq!(feature_mean(&[i32::MAX, i32::MAX]), i32::MAX);
    assert_eq!(feature_mean(&[i32::MIN, i32::MIN]), i32::MIN);
    assert_eq!(feature_std(&[2, 4, 4, 4, 5, 5, 7, 9], 5), 2);
    assert_eq!(feature_std(&[0, 10], 5), 5);
    assert_eq!(feature_std(&[], 5), 0);
}

fn lively() -> NDSequence {
    NDSequence::from_frames(2, vec![0, 0, 0, 10, 0, 20, 0, 20, 0, 0, 0, 0, 0, 0], 0)
}

#[test]
fn variance_is_smoothed() {
    let s = lively();
    assert_eq!(s.variance(1), vec![0, 0, 5, 10, 10, 0, 0]);
    assert_eq!(s.variance(2), vec![0, 0, 2, 7, 10, 5, 0]);
    assert_eq!(s.variance(0), vec![INFINITY; 7]);
    assert_eq!(s.variance(9), vec![0; 7]);
}

#[test]
fn lively_ranges_are_found() {
    let s = lively();
    let ranges = s.interesting_ranges(1, 600, 2);
    let bounds: Vec<(usize, usize)> = ranges.iter().map(|r| (r.start, r.stop)).collect();
    assert_eq!(bounds, vec![(2, 5)]);
    assert_eq!(ranges[0].sequence.audio_id, 0);
    // a range must be longer than the least length
    assert!(s.interesting_ranges(1, 600, 3).is_empty());
    // every frame reaches the least of the values: the range never ends
    assert!(s.interesting_ranges(1, 0, 0).is_empty());
}
