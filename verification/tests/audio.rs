use pattern_discovery::audio::{AudioData, SampleFormat, WavSpec};
use pattern_discovery::spectrogram::{NDSequence, Slice};

fn spec(channels: u16) -> WavSpec {
    WavSpec { channels, sample_rate: 44100, bits_per_sample: 16, sample_format: SampleFormat::Int }
}

fn audio(id: usize, data: Vec<i16>) -> AudioData {
    AudioData { id, spec: spec(1), data }
}

#[test]
fn only_the_first_channel_is_taken() {
    let stereo = AudioData::from_samples(&vec![1, 2, 3, 4, 5, 6], spec(2), 7);
    assert_eq!(stereo.data, vec![1, 3, 5]);
    assert_eq!(stereo.id, 7);
    assert_eq!(stereo.spec.channels, 1);
    assert_eq!(stereo.spec.sample_rate, 44100);
    assert_eq!(stereo.spec.bits_per_sample, 16);
    assert_eq!(stereo.spec.sample_format, SampleFormat::Int);
    let mono = AudioData::from_samples(&vec![1, 2, 3], spec(1), 0);
    assert_eq!(mono.data, vec![1, 2, 3]);
    let three = AudioData::from_samples(&vec![1, 2, 3, 4], spec(3), 0);
    assert_eq!(three.data, vec![1, 4]);
}

#[test]
fn append_separates_by_zeros() {
    let mut first = audio(0, vec![1]);
    let mut second = audio(1, vec![7, 8]);
    first.append(2, &mut second);
    assert_eq!(first.data, vec![1, 0, 0, 7, 8]);
    assert!(second.data.is_empty());
    assert_eq!(first.id, 0);
}

#[test]
fn slice_extracts_samples() {
    let whole = audio(3, vec![1, 2, 3, 4]);
    let part = whole.slice(1, 3);
    assert_eq!(part.data, vec![2, 3]);
    assert_eq!(part.id, 3);
    assert!(whole.slice(2, 2).data.is_empty());
}

#[test]
fn clusters_of_recordings_are_joined() {
    let recordings = vec![audio(0, vec![1, 2]), audio(1, vec![3])];
    let joined = AudioData::of_recordings(&vec![1, 0], &recordings, 1);
    assert_eq!(joined.data, vec![0, 3, 0, 1, 2]);
    assert_eq!(joined.id, 0);
}

#[test]
fn clusters_of_ranges_are_joined() {
    let recordings = vec![audio(0, vec![0, 1, 2, 3, 4, 5]), audio(1, vec![10, 11, 12, 13])];
    let a = NDSequence::from_frames(1, vec![0, 0, 0], 0);
    let b = NDSequence::from_frames(1, vec![0, 0], 1);
    let slices = vec![Slice::new(1, 2, &a), Slice::new(0, 2, &b), Slice::new(0, 3, &a)];
    let joined = AudioData::of_slices(&vec![0, 1], &slices, &recordings, 2, 1);
    assert_eq!(joined.data, vec![0, 2, 3, 0, 10, 11, 12, 13]);
    let joined = AudioData::of_slices(&vec![2], &slices, &recordings, 2, 0);
    assert_eq!(joined.data, vec![0, 1, 2, 3, 4, 5]);
}
