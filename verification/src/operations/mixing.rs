//! Mixing the channels into one.

use vstd::prelude::*;

use crate::error::AudioError;
use crate::processor::{grid, AudioProcessor};

verus! {

impl<S: Copy, B: Copy> AudioProcessor<S, B> {
    /// Mix the channels into a single channel with one weight per channel.
    ///
    /// Sample `i` of the mix is `mix_sample(channels, weights, i)`; the
    /// processor is left with that one channel, and the spectrum, which no
    /// longer belongs to the samples, is cleared.
    pub fn mix_channels<W, F: Fn(&Vec<Vec<S>>, &[W], usize) -> S>(
        &mut self,
        weights: &[W],
        mix_sample: F,
    ) -> (r: Result<(), AudioError>)
        requires
            old(self).wf(),
            forall|d: &Vec<Vec<S>>, w: &[W], i: usize| mix_sample.requires((d, w, i)),
        ensures
            final(self).wf(),
            old(self).time_view() is None ==> r == Err::<(), AudioError>(AudioError::NoTimeData),
            old(self).time_view() is Some && weights@.len() != old(self).time_view().unwrap().len()
                ==> r == Err::<(), AudioError>(
                AudioError::WeightCountMismatch {
                    weights: weights@.len() as usize,
                    channels: old(self).time_view().unwrap().len() as usize,
                },
            ),
            r is Err ==> *final(self) == *old(self),
            old(self).time_view() is Some && weights@.len() == old(self).time_view().unwrap().len()
                ==> {
                let d = old(self).time_view().unwrap();
                let e = final(self).time_view().unwrap();
                &&& r is Ok
                &&& final(self).time_view() is Some
                &&& e.len() == 1
                &&& e[0].len() == d[0].len()
                &&& forall|i: int|
                    0 <= i < e[0].len() ==> mix_sample.ensures(
                        (&old(self).time_vecs().unwrap(), weights, i as usize),
                        #[trigger] e[0][i],
                    )
                &&& final(self).channels() == 1
                &&& final(self).spectrum_view() is None
                &&& final(self).stash_view() == old(self).stash_view()
                &&& final(self).sample_rate() == old(self).sample_rate()
                &&& final(self).fft_size() == old(self).fft_size()
                &&& final(self).spec_max_amplitude() == old(self).spec_max_amplitude()
            },
    {
        proof {
            self.lemma_views();
        }
        match &self.time_data {
            None => Err(AudioError::NoTimeData),
            Some(time_data_channels) => {
                let num_channels = time_data_channels.len();
                if weights.len() != num_channels {
                    return Err(
                        AudioError::WeightCountMismatch { weights: weights.len(), channels: num_channels },
                    );
                }
                assert(grid(*time_data_channels)[0] == time_data_channels@[0]@);
                let samples_per_channel = time_data_channels[0].len();
                let mut mixed_channel: Vec<S> = Vec::new();
                let mut i: usize = 0;
                while i < samples_per_channel
                    invariant
                        i <= samples_per_channel,
                        mixed_channel@.len() == i,
                        forall|d: &Vec<Vec<S>>, w: &[W], i: usize| mix_sample.requires((d, w, i)),
                        forall|j: int|
                            0 <= j < i ==> mix_sample.ensures(
                                (time_data_channels, weights, j as usize),
                                #[trigger] mixed_channel@[j],
                            ),
                    decreases samples_per_channel - i,
                {
                    let value = mix_sample(time_data_channels, weights, i);
                    mixed_channel.push(value);
                    i = i + 1;
                }
                let mut mixed: Vec<Vec<S>> = Vec::new();
                mixed.push(mixed_channel);
                self.time_data = Some(mixed);
                self.channels = 1;
                // The spectrum no longer belongs to the samples
                self.fft_data = None;
                proof {
                    self.lemma_views();
                    assert(grid(mixed)[0] == mixed_channel@);
                }
                Ok(())
            },
        }
    }
}

} // verus!
