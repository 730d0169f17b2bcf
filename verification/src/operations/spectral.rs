//! Moving bins within the spectrum: shifting, stretching, wobbling.
//!
//! DC (bin 0) and Nyquist (the last bin) always keep their place; bins whose
//! source falls outside the range between them become zero.

use vstd::prelude::*;

use crate::error::AudioError;
use crate::processor::{grid, is_rectangular, AudioProcessor};

verus! {

/// A channel with every bin between DC and Nyquist moved up by `shift` bins
/// (down when it is negative); bins moved past DC or Nyquist are dropped,
/// bins that nothing moves to become `zero`.
pub open spec fn shifted_channel<B>(ch: Seq<B>, shift: int, zero: B) -> Seq<B> {
    let nyquist = ch.len() - 1;
    Seq::new(
        ch.len(),
        |j: int|
            if j == 0 || j == nyquist {
                ch[j]
            } else if 1 <= j - shift < nyquist {
                ch[j - shift]
            } else {
                zero
            },
    )
}

/// A channel with every bin `j` between DC and Nyquist taken from bin
/// `sources[j]`, when that source lies in `min_source ..` and before Nyquist,
/// else `zero`.
pub open spec fn resampled_channel<B>(ch: Seq<B>, sources: Seq<usize>, min_source: int, zero: B) -> Seq<
    B,
> {
    let nyquist = ch.len() - 1;
    Seq::new(
        ch.len(),
        |j: int|
            if j == 0 || j == nyquist {
                ch[j]
            } else if min_source <= sources[j] < nyquist {
                ch[sources[j] as int]
            } else {
                zero
            },
    )
}

/// Every channel of the spectrum shifted.
pub open spec fn shifted<B>(d: Seq<Seq<B>>, shift: int, zero: B) -> Seq<Seq<B>> {
    Seq::new(d.len(), |c: int| shifted_channel(d[c], shift, zero))
}

/// Every channel of the spectrum resampled.
pub open spec fn resampled<B>(d: Seq<Seq<B>>, sources: Seq<usize>, min_source: int, zero: B) -> Seq<
    Seq<B>,
> {
    Seq::new(d.len(), |c: int| resampled_channel(d[c], sources, min_source, zero))
}

impl<S: Copy, B: Copy> AudioProcessor<S, B> {
    fn shift_channel(ch: &Vec<B>, bin_shift: i64, zero: B) -> (r: Vec<B>)
        requires
            ch@.len() >= 1,
        ensures
            r@ == shifted_channel(ch@, bin_shift as int, zero),
    {
        let len = ch.len();
        let nyquist_bin = len - 1;
        let mut shifted: Vec<B> = Vec::new();
        let mut j: usize = 0;
        while j < len
            invariant
                len == ch@.len(),
                nyquist_bin == len - 1,
                j <= len,
                shifted@.len() == j,
                forall|k: int|
                    0 <= k < j ==> #[trigger] shifted@[k] == shifted_channel(ch@, bin_shift as int, zero)[k],
            decreases len - j,
        {
            let source: i128 = j as i128 - bin_shift as i128;
            if j == 0 || j == nyquist_bin {
                // Always preserve DC and Nyquist
                shifted.push(ch[j]);
            } else if 1 <= source && source < nyquist_bin as i128 {
                shifted.push(ch[source as usize]);
            } else {
                // Bins shifted outside the range are discarded
                shifted.push(zero);
            }
            j = j + 1;
        }
        assert(shifted@ =~= shifted_channel(ch@, bin_shift as int, zero));
        shifted
    }

    fn resample_channel(ch: &Vec<B>, sources: &Vec<usize>, min_source: usize, zero: B) -> (r: Vec<B>)
        requires
            ch@.len() >= 1,
            sources@.len() == ch@.len(),
        ensures
            r@ == resampled_channel(ch@, sources@, min_source as int, zero),
    {
        let len = ch.len();
        let nyquist_bin = len - 1;
        let mut resampled: Vec<B> = Vec::new();
        let mut j: usize = 0;
        while j < len
            invariant
                len == ch@.len(),
                sources@.len() == len,
                nyquist_bin == len - 1,
                j <= len,
                resampled@.len() == j,
                forall|k: int|
                    0 <= k < j ==> #[trigger] resampled@[k] == resampled_channel(
                        ch@,
                        sources@,
                        min_source as int,
                        zero,
                    )[k],
            decreases len - j,
        {
            let src_bin = sources[j];
            if j == 0 || j == nyquist_bin {
                // Always preserve DC and Nyquist
                resampled.push(ch[j]);
            } else if min_source <= src_bin && src_bin < nyquist_bin {
                resampled.push(ch[src_bin]);
            } else {
                resampled.push(zero);
            }
            j = j + 1;
        }
        assert(resampled@ =~= resampled_channel(ch@, sources@, min_source as int, zero));
        resampled
    }

    /// Shift the spectrum by `bin_shift` bins (up when positive). DC and
    /// Nyquist stay; bins shifted past them are dropped, and the bins that
    /// nothing is shifted to become `zero`.
    pub fn shift_spectrum_bins(&mut self, bin_shift: i64, zero: B) -> (r: Result<(), AudioError>)
        requires
            old(self).wf(),
        ensures
            final(self).wf(),
            old(self).spectrum_view() is None ==> r == Err::<(), AudioError>(AudioError::NoFftData)
                && *final(self) == *old(self),
            old(self).spectrum_view() is Some ==> {
                &&& r is Ok
                &&& final(self).spectrum_view() == Some(
                    shifted(old(self).spectrum_view().unwrap(), bin_shift as int, zero),
                )
                &&& final(self).time_view() == old(self).time_view()
                &&& final(self).stash_view() == old(self).stash_view()
                &&& final(self).sample_rate() == old(self).sample_rate()
                &&& final(self).channels() == old(self).channels()
                &&& final(self).fft_size() == old(self).fft_size()
                &&& final(self).spec_max_amplitude() == old(self).spec_max_amplitude()
            },
    {
        proof {
            self.lemma_views();
        }
        match self.fft_data.take() {
            None => Err(AudioError::NoFftData),
            Some(data) => {
                let ghost d = grid(data);
                let num_channels = data.len();
                let mut new_data: Vec<Vec<B>> = Vec::new();
                let mut c: usize = 0;
                while c < num_channels
                    invariant
                        d == grid(data),
                        is_rectangular(d),
                        num_channels == d.len(),
                        c <= num_channels,
                        new_data@.len() == c,
                        forall|k: int|
                            0 <= k < c ==> (#[trigger] new_data@[k])@ == shifted(
                                d,
                                bin_shift as int,
                                zero,
                            )[k],
                    decreases num_channels - c,
                {
                    assert(data@[c as int]@ == d[c as int]);
                    let channel = Self::shift_channel(&data[c], bin_shift, zero);
                    new_data.push(channel);
                    c = c + 1;
                }
                assert(grid(new_data) =~= shifted(d, bin_shift as int, zero));
                self.fft_data = Some(new_data);
                proof {
                    self.lemma_views();
                }
                Ok(())
            },
        }
    }

    /// Take every bin between DC and Nyquist from another bin: bin `j`
    /// becomes bin `sources[j]` when that lies in `min_source ..` and before
    /// Nyquist, else `zero`. DC and Nyquist stay. This is how the spectrum is
    /// stretched or wobbled, `sources` telling where each bin comes from.
    pub fn resample_bins(&mut self, sources: &Vec<usize>, min_source: usize, zero: B) -> (r: Result<
        (),
        AudioError,
    >)
        requires
            old(self).wf(),
            old(self).spectrum_view() is Some ==> sources@.len() == old(
                self,
            ).spectrum_view().unwrap()[0].len(),
        ensures
            final(self).wf(),
            old(self).spectrum_view() is None ==> r == Err::<(), AudioError>(AudioError::NoFftData)
                && *final(self) == *old(self),
            old(self).spectrum_view() is Some ==> {
                &&& r is Ok
                &&& final(self).spectrum_view() == Some(
                    resampled(old(self).spectrum_view().unwrap(), sources@, min_source as int, zero),
                )
                &&& final(self).time_view() == old(self).time_view()
                &&& final(self).stash_view() == old(self).stash_view()
                &&& final(self).sample_rate() == old(self).sample_rate()
                &&& final(self).channels() == old(self).channels()
                &&& final(self).fft_size() == old(self).fft_size()
                &&& final(self).spec_max_amplitude() == old(self).spec_max_amplitude()
            },
    {
        proof {
            self.lemma_views();
        }
        match self.fft_data.take() {
            None => Err(AudioError::NoFftData),
            Some(data) => {
                let ghost d = grid(data);
                let num_channels = data.len();
                let mut new_data: Vec<Vec<B>> = Vec::new();
                let mut c: usize = 0;
                while c < num_channels
                    invariant
                        d == grid(data),
                        is_rectangular(d),
                        sources@.len() == d[0].len(),
                        num_channels == d.len(),
                        c <= num_channels,
                        new_data@.len() == c,
                        forall|k: int|
                            0 <= k < c ==> (#[trigger] new_data@[k])@ == resampled(
                                d,
                                sources@,
                                min_source as int,
                                zero,
                            )[k],
                    decreases num_channels - c,
                {
                    assert(data@[c as int]@ == d[c as int]);
                    let channel = Self::resample_channel(&data[c], sources, min_source, zero);
                    new_data.push(channel);
                    c = c + 1;
                }
                assert(grid(new_data) =~= resampled(d, sources@, min_source as int, zero));
                self.fft_data = Some(new_data);
                proof {
                    self.lemma_views();
                }
                Ok(())
            },
        }
    }
}

/// Shifting moves the bins of every channel within that channel: bin `j` of
/// channel `c` of the result is DC or Nyquist of channel `c` where `j` is one
/// of them, bin `j - shift` of channel `c` when that lies strictly between
/// DC and Nyquist, and `zero` otherwise. No channel's bins reach another channel.
pub proof fn lemma_shift_moves_bins_within_channel<B>(
    d: Seq<Seq<B>>,
    shift: int,
    zero: B,
    c: int,
    j: int,
)
    requires
        0 <= c < d.len(),
        d[c].len() >= 1,
        0 <= j < d[c].len(),
    ensures
        shifted(d, shift, zero).len() == d.len(),
        shifted(d, shift, zero)[c].len() == d[c].len(),
        (j == 0 || j == d[c].len() - 1) ==> shifted(d, shift, zero)[c][j] == d[c][j],
        (0 < j < d[c].len() - 1 && 0 < j - shift < d[c].len() - 1) ==> shifted(d, shift, zero)[c][j]
            == d[c][j - shift],
        (0 < j < d[c].len() - 1 && !(0 < j - shift < d[c].len() - 1)) ==> shifted(
            d,
            shift,
            zero,
        )[c][j] == zero,
{
}

/// Shifting treats the channels apart: changing one channel of the input
/// leaves every other channel of the result as it was.
pub proof fn lemma_shift_channels_independent<B>(
    d: Seq<Seq<B>>,
    shift: int,
    zero: B,
    other: int,
    ch: Seq<B>,
    c: int,
)
    requires
        0 <= other < d.len(),
        0 <= c < d.len(),
        c != other,
    ensures
        shifted(d.update(other, ch), shift, zero)[c] == shifted(d, shift, zero)[c],
{
}

/// Resampling takes every bin from its source within the same channel: bin
/// `j` of channel `c` strictly between DC and Nyquist is bin `sources[j]` of
/// channel `c` whenever `min_source <= sources[j]` and the source lies below
/// Nyquist (DC itself included when `min_source` is 0), and `zero` otherwise;
/// DC and Nyquist stay.
pub proof fn lemma_resample_takes_sources<B>(
    d: Seq<Seq<B>>,
    sources: Seq<usize>,
    min_source: int,
    zero: B,
    c: int,
    j: int,
)
    requires
        0 <= c < d.len(),
        d[c].len() >= 1,
        0 <= j < d[c].len(),
    ensures
        resampled(d, sources, min_source, zero).len() == d.len(),
        resampled(d, sources, min_source, zero)[c].len() == d[c].len(),
        (j == 0 || j == d[c].len() - 1) ==> resampled(d, sources, min_source, zero)[c][j] == d[c][j],
        (0 < j < d[c].len() - 1 && min_source <= sources[j] && sources[j] < d[c].len() - 1)
            ==> resampled(d, sources, min_source, zero)[c][j] == d[c][sources[j] as int],
        (0 < j < d[c].len() - 1 && min_source <= 0) ==> (sources[j] == 0 ==> resampled(
            d,
            sources,
            min_source,
            zero,
        )[c][j] == d[c][0]),
        (0 < j < d[c].len() - 1 && !(min_source <= sources[j] && sources[j] < d[c].len() - 1))
            ==> resampled(d, sources, min_source, zero)[c][j] == zero,
{
}

/// Resampling treats the channels apart: changing one channel of the input
/// leaves every other channel of the result as it was.
pub proof fn lemma_resample_channels_independent<B>(
    d: Seq<Seq<B>>,
    sources: Seq<usize>,
    min_source: int,
    zero: B,
    other: int,
    ch: Seq<B>,
    c: int,
)
    requires
        0 <= other < d.len(),
        0 <= c < d.len(),
        c != other,
    ensures
        resampled(d.update(other, ch), sources, min_source, zero)[c] == resampled(
            d,
            sources,
            min_source,
            zero,
        )[c],
{
}

} // verus!
