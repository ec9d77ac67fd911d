//! Audio samples, and how the audio of a cluster is put together.

use crate::spectrogram::{lemma_product_bounds, Slice};
use vstd::prelude::*;

verus! {

/// Whether samples are floating point or integer values.
#[derive(Clone, Copy, Debug, PartialEq, Eq, Structural)]
pub enum SampleFormat {
    Float,
    Int,
}

/// Properties of audio data.
#[derive(Clone, Copy, Debug)]
pub struct WavSpec {
    /// The number of channels.
    pub channels: u16,
    /// The number of samples per second.
    pub sample_rate: u32,
    /// The number of bits per sample.
    pub bits_per_sample: u16,
    /// Whether the samples are float or integer values.
    pub sample_format: SampleFormat,
}

/// Simply holds audio data
pub struct AudioData {
    pub id: usize,
    pub spec: WavSpec,
    pub data: Vec<i16>,
}

/// `n` samples of silence.
pub open spec fn silence(n: nat) -> Seq<i16> {
    Seq::new(n, |i: int| 0i16)
}

/// The samples among the first `upto` that belong to the first of
/// `n_channels` interleaved channels.
pub open spec fn first_channel(samples: Seq<i16>, n_channels: int, upto: int) -> Seq<i16>
    decreases upto,
{
    if upto <= 0 {
        Seq::empty()
    } else {
        let rest = first_channel(samples, n_channels, upto - 1);
        if (upto - 1) % n_channels == 0 {
            rest.push(samples[upto - 1])
        } else {
            rest
        }
    }
}

/// The audio of the first `upto` members of a cluster of ranges, each
/// behind `gap` samples of silence. A range of frames is `win_step` samples
/// to the frame.
pub open spec fn slices_audio(
    cluster: Seq<usize>,
    slices: Seq<Slice>,
    audio: Seq<AudioData>,
    win_step: usize,
    gap: usize,
    upto: int,
) -> Seq<i16>
    decreases upto,
{
    if upto <= 0 {
        Seq::empty()
    } else {
        let slice = slices[cluster[upto - 1] as int];
        let raw = audio[slice.sequence.audio_id as int];
        slices_audio(cluster, slices, audio, win_step, gap, upto - 1) + silence(gap as nat)
            + raw.data@.subrange(slice.start * win_step, slice.stop * win_step)
    }
}

/// The audio of the first `upto` members of a cluster of recordings, each
/// behind `gap` samples of silence.
pub open spec fn recordings_audio(
    cluster: Seq<usize>,
    audio: Seq<AudioData>,
    gap: usize,
    upto: int,
) -> Seq<i16>
    decreases upto,
{
    if upto <= 0 {
        Seq::empty()
    } else {
        recordings_audio(cluster, audio, gap, upto - 1) + silence(gap as nat)
            + audio[cluster[upto - 1] as int].data@
    }
}

impl AudioData {
    /// Audio data from interleaved samples. For multiple channels, we only
    /// take the first.
    pub fn from_samples(samples: &Vec<i16>, spec: WavSpec, id: usize) -> (r: AudioData)
        requires
            spec.channels > 0,
        ensures
            r.id == id,
            r.spec.channels == 1,
            r.spec.sample_rate == spec.sample_rate,
            r.spec.bits_per_sample == spec.bits_per_sample,
            r.spec.sample_format == spec.sample_format,
            r.data@ == first_channel(samples@, spec.channels as int, samples@.len() as int),
    {
        let n_channels: usize = spec.channels as usize;
        let mut data: Vec<i16> = Vec::new();
        let mut i: usize = 0;
        while i < samples.len()
            invariant
                i <= samples@.len(),
                n_channels == spec.channels,
                n_channels > 0,
                data@ == first_channel(samples@, n_channels as int, i as int),
            decreases samples@.len() - i,
        {
            if i % n_channels == 0 {
                data.push(samples[i]);
            }
            i = i + 1;
        }
        let mono = WavSpec {
            channels: 1,
            sample_rate: spec.sample_rate,
            bits_per_sample: spec.bits_per_sample,
            sample_format: spec.sample_format,
        };
        AudioData { id, spec: mono, data }
    }

    /// Append audio samples to this file, seperated by zeros
    pub fn append(&mut self, insert_zeros: usize, audio: &mut AudioData)
        ensures
            final(self).data@ == old(self).data@ + silence(insert_zeros as nat) + old(audio).data@,
            final(self).id == old(self).id,
            final(self).spec == old(self).spec,
            final(audio).data@.len() == 0,
            final(audio).id == old(audio).id,
            final(audio).spec == old(audio).spec,
    {
        let ghost before = self.data@;
        let mut i: usize = 0;
        while i < insert_zeros
            invariant
                i <= insert_zeros,
                self.data@ == before + silence(i as nat),
                self.id == old(self).id,
                self.spec == old(self).spec,
                *audio == *old(audio),
            decreases insert_zeros - i,
        {
            self.data.push(0);
            i = i + 1;
            assert(self.data@ =~= before + silence(i as nat));
        }
        self.data.append(&mut audio.data);
    }

    /// Extract a slice of audio
    pub fn slice(&self, t_start: usize, t_stop: usize) -> (r: AudioData)
        requires
            t_start <= t_stop <= self.data@.len(),
        ensures
            r.id == self.id,
            r.spec == self.spec,
            r.data@ == self.data@.subrange(t_start as int, t_stop as int),
    {
        let mut data: Vec<i16> = Vec::new();
        let mut t: usize = t_start;
        while t < t_stop
            invariant
                t_start <= t <= t_stop <= self.data@.len(),
                data@ == self.data@.subrange(t_start as int, t as int),
            decreases t_stop - t,
        {
            data.push(self.data[t]);
            t = t + 1;
            assert(data@ =~= self.data@.subrange(t_start as int, t as int));
        }
        AudioData { id: self.id, spec: self.spec, data }
    }

    /// The audio of a cluster of ranges: the samples of each range behind
    /// `gap` samples of silence, in the format of the first.
    pub fn of_slices(
        cluster: &Vec<usize>,
        slices: &Vec<Slice>,
        audio: &Vec<AudioData>,
        win_step: usize,
        gap: usize,
    ) -> (r: AudioData)
        requires
            cluster@.len() > 0,
            forall|c: int| 0 <= c < cluster@.len() ==> #[trigger] cluster@[c] < slices@.len(),
            forall|s: int|
                0 <= s < slices@.len() ==> {
                    &&& (#[trigger] slices@[s]).sequence.audio_id < audio@.len()
                    &&& slices@[s].start <= slices@[s].stop
                    &&& slices@[s].stop * win_step <= audio@[slices@[s].sequence.audio_id as int].data@.len()
                },
        ensures
            r.id == 0,
            r.spec == audio@[slices@[cluster@[0] as int].sequence.audio_id as int].spec,
            r.data@ == slices_audio(
                cluster@,
                slices@,
                audio@,
                win_step,
                gap,
                cluster@.len() as int,
            ),
    {
        let spec = audio[slices[cluster[0]].sequence.audio_id].spec;
        let mut output = AudioData { id: 0, spec, data: Vec::new() };
        let mut c: usize = 0;
        while c < cluster.len()
            invariant
                c <= cluster@.len(),
                output.id == 0,
                output.spec == spec,
                output.data@ == slices_audio(cluster@, slices@, audio@, win_step, gap, c as int),
                forall|k: int| 0 <= k < cluster@.len() ==> #[trigger] cluster@[k] < slices@.len(),
                forall|s: int|
                    0 <= s < slices@.len() ==> {
                        &&& (#[trigger] slices@[s]).sequence.audio_id < audio@.len()
                        &&& slices@[s].start <= slices@[s].stop
                        &&& slices@[s].stop * win_step <= audio@[slices@[s].sequence.audio_id as int].data@.len()
                    },
            decreases cluster@.len() - c,
        {
            let slice: &Slice = &slices[cluster[c]];
            let raw: &AudioData = &audio[slice.sequence.audio_id];
            proof {
                lemma_product_bounds(slice.start as int, slice.stop as int, win_step as int);
                assert(raw.data.len() == raw.data@.len());
            }
            let mut part = raw.slice(slice.start * win_step, slice.stop * win_step);
            output.append(gap, &mut part);
            c = c + 1;
        }
        output
    }

    /// The audio of a cluster of recordings: the samples of each behind
    /// `gap` samples of silence, in the format of the first.
    pub fn of_recordings(cluster: &Vec<usize>, audio: &Vec<AudioData>, gap: usize) -> (r: AudioData)
        requires
            cluster@.len() > 0,
            forall|c: int| 0 <= c < cluster@.len() ==> #[trigger] cluster@[c] < audio@.len(),
        ensures
            r.id == 0,
            r.spec == audio@[cluster@[0] as int].spec,
            r.data@ == recordings_audio(cluster@, audio@, gap, cluster@.len() as int),
    {
        let spec = audio[cluster[0]].spec;
        let mut output = AudioData { id: 0, spec, data: Vec::new() };
        let mut c: usize = 0;
        while c < cluster.len()
            invariant
                c <= cluster@.len(),
                output.id == 0,
                output.spec == spec,
                output.data@ == recordings_audio(cluster@, audio@, gap, c as int),
                forall|k: int| 0 <= k < cluster@.len() ==> #[trigger] cluster@[k] < audio@.len(),
            decreases cluster@.len() - c,
        {
            let raw: &AudioData = &audio[cluster[c]];
            let mut part = raw.slice(0, raw.data.len());
            assert(part.data@ =~= raw.data@);
            output.append(gap, &mut part);
            c = c + 1;
        }
        output
    }
}

} // verus!
