//! Combining the spectrum with another processor's spectrum, bin by bin, as
//! convolution and correlation do.

use vstd::prelude::*;

use crate::error::AudioError;
use crate::processor::{grid, is_rectangular, AudioProcessor};

verus! {

impl<S: Copy, B: Copy> AudioProcessor<S, B> {
    /// Combine the spectrum bin by bin with the spectrum of `other`: bin `b`
    /// of channel `c` becomes `combine(bin, other's bin, b, bins per channel)`.
    /// Both spectra must be there and have the same channels and bins.
    pub fn multiply_spectra<F: Fn(B, B, usize, usize) -> B>(
        &mut self,
        other: &AudioProcessor<S, B>,
        combine: F,
    ) -> (r: Result<(), AudioError>)
        requires
            old(self).wf(),
            other.wf(),
            forall|x: B, y: B, b: usize, n: usize| combine.requires((x, y, b, n)),
        ensures
            final(self).wf(),
            old(self).spectrum_view() is None || other.spectrum_view() is None ==> r == Err::<
                (),
                AudioError,
            >(AudioError::SpectrumMissing),
            old(self).spectrum_view() is Some && other.spectrum_view() is Some ==> {
                let d = old(self).spectrum_view().unwrap();
                let o = other.spectrum_view().unwrap();
                &&& d.len() != o.len() ==> r == Err::<(), AudioError>(AudioError::ChannelCountMismatch)
                &&& d.len() == o.len() && d[0].len() != o[0].len() ==> r == Err::<(), AudioError>(
                    AudioError::BinCountMismatch,
                )
                &&& d.len() == o.len() && d[0].len() == o[0].len() ==> {
                    let e = final(self).spectrum_view().unwrap();
                    &&& r is Ok
                    &&& final(self).spectrum_view() is Some
                    &&& e.len() == d.len()
                    &&& forall|c: int| 0 <= c < e.len() ==> (#[trigger] e[c]).len() == d[c].len()
                    &&& forall|c: int, b: int|
                        0 <= c < e.len() && 0 <= b < e[c].len() ==> combine.ensures(
                            (d[c][b], o[c][b], b as usize, d[0].len() as usize),
                            #[trigger] e[c][b],
                        )
                    &&& final(self).time_view() == old(self).time_view()
                    &&& final(self).stash_view() == old(self).stash_view()
                    &&& final(self).sample_rate() == old(self).sample_rate()
                    &&& final(self).channels() == old(self).channels()
                    &&& final(self).fft_size() == old(self).fft_size()
                    &&& final(self).spec_max_amplitude() == old(self).spec_max_amplitude()
                }
            },
            r is Err ==> *final(self) == *old(self),
    {
        proof {
            self.lemma_views();
            other.lemma_views();
        }
        if self.fft_data.is_none() || other.fft_data.is_none() {
            return Err(AudioError::SpectrumMissing);
        }
        let self_fft_data = self.fft_data.take().unwrap();
        let other_fft_data = other.fft_data.as_ref().unwrap();
        let ghost d = grid(self_fft_data);
        let ghost o = grid(*other_fft_data);
        if self_fft_data.len() != other_fft_data.len() {
            self.fft_data = Some(self_fft_data);
            proof {
                self.lemma_views();
            }
            return Err(AudioError::ChannelCountMismatch);
        }
        assert(d[0] == self_fft_data@[0]@);
        assert(o[0] == other_fft_data@[0]@);
        let num_channels = self_fft_data.len();
        let num_bins = self_fft_data[0].len();
        if other_fft_data[0].len() != num_bins {
            self.fft_data = Some(self_fft_data);
            proof {
                self.lemma_views();
            }
            return Err(AudioError::BinCountMismatch);
        }
        let mut new_data: Vec<Vec<B>> = Vec::new();
        let mut c: usize = 0;
        while c < num_channels
            invariant
                d == grid(self_fft_data),
                o == grid(*other_fft_data),
                is_rectangular(d),
                is_rectangular(o),
                num_channels == d.len(),
                num_channels == o.len(),
                num_bins == d[0].len(),
                num_bins == o[0].len(),
                forall|x: B, y: B, b: usize, n: usize| combine.requires((x, y, b, n)),
                c <= num_channels,
                new_data@.len() == c,
                forall|k: int| 0 <= k < c ==> (#[trigger] new_data@[k])@.len() == num_bins,
                forall|k: int, b: int|
                    0 <= k < c && 0 <= b < num_bins ==> combine.ensures(
                        (d[k][b], o[k][b], b as usize, num_bins),
                        #[trigger] new_data@[k]@[b],
                    ),
            decreases num_channels - c,
        {
            let self_channel = &self_fft_data[c];
            let other_channel = &other_fft_data[c];
            assert(self_channel@ == d[c as int]);
            assert(other_channel@ == o[c as int]);
            let mut new_channel: Vec<B> = Vec::new();
            let mut bin: usize = 0;
            while bin < num_bins
                invariant
                    self_channel@ == d[c as int],
                    other_channel@ == o[c as int],
                    self_channel@.len() == num_bins,
                    other_channel@.len() == num_bins,
                    forall|x: B, y: B, b: usize, n: usize| combine.requires((x, y, b, n)),
                    bin <= num_bins,
                    new_channel@.len() == bin,
                    forall|b: int|
                        0 <= b < bin ==> combine.ensures(
                            (d[c as int][b], o[c as int][b], b as usize, num_bins),
                            #[trigger] new_channel@[b],
                        ),
                decreases num_bins - bin,
            {
                let value = combine(self_channel[bin], other_channel[bin], bin, num_bins);
                new_channel.push(value);
                bin = bin + 1;
            }
            new_data.push(new_channel);
            c = c + 1;
        }
        self.fft_data = Some(new_data);
        proof {
            self.lemma_views();
            let e = grid(new_data);
            assert forall|k: int| 0 <= k < e.len() implies #[trigger] e[k].len() == e[0].len() by {}
        }
        Ok(())
    }
}

} // verus!
