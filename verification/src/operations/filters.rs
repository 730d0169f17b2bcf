//! Filters that keep a band of bins and zero the rest.

use vstd::prelude::*;

use crate::error::AudioError;
use crate::processor::{grid, is_rectangular, same_shape, AudioProcessor};

verus! {

/// The spectrum `d` with every bin `i` for which `keep(i)` fails set to `zero`.
pub open spec fn masked<B>(d: Seq<Seq<B>>, keep: spec_fn(int) -> bool, zero: B) -> Seq<Seq<B>> {
    Seq::new(d.len(), |c: int| Seq::new(d[c].len(), |i: int| if keep(i) { d[c][i] } else { zero }))
}

/// Bin `i` of `ch` when the band `low ..= high` is kept.
pub open spec fn band_value<B>(ch: Seq<B>, i: int, low: int, high: int, zero: B) -> B {
    if low <= i <= high {
        ch[i]
    } else {
        zero
    }
}

impl<S: Copy, B: Copy> AudioProcessor<S, B> {
    /// Keep the bins `low ..= high`, zero the others; what the filters below share.
    fn apply_mask(&mut self, low: usize, high: usize, zero: B) -> (r: Result<(), AudioError>)
        requires
            old(self).wf(),
        ensures
            final(self).wf(),
            old(self).spectrum_view() is None ==> r == Err::<(), AudioError>(AudioError::NoFftData)
                && *final(self) == *old(self),
            old(self).spectrum_view() is Some ==> {
                &&& r is Ok
                &&& final(self).spectrum_view() == Some(
                    masked(
                        old(self).spectrum_view().unwrap(),
                        |i: int| low <= i <= high,
                        zero,
                    ),
                )
                &&& final(self).time_view() == old(self).time_view()
                &&& final(self).stash_view() == old(self).stash_view()
                &&& final(self).sample_rate() == old(self).sample_rate()
                &&& final(self).channels() == old(self).channels()
                &&& final(self).fft_size() == old(self).fft_size()
                &&& final(self).spec_max_amplitude() == old(self).spec_max_amplitude()
            },
    {
        proof {
            self.lemma_views();
        }
        match self.fft_data.take() {
            None => Err(AudioError::NoFftData),
            Some(data) => {
                let ghost d = grid(data);
                let num_channels = data.len();
                let mut new_data: Vec<Vec<B>> = Vec::new();
                let mut c: usize = 0;
                while c < num_channels
                    invariant
                        d == grid(data),
                        is_rectangular(d),
                        num_channels == d.len(),
                        c <= num_channels,
                        new_data@.len() == c,
                        forall|k: int|
                            0 <= k < c ==> (#[trigger] new_data@[k])@ == masked(
                                d,
                                |i: int| low <= i <= high,
                                zero,
                            )[k],
                    decreases num_channels - c,
                {
                    let channel = &data[c];
                    assert(channel@ == d[c as int]);
                    let len = channel.len();
                    let mut new_channel: Vec<B> = Vec::new();
                    let mut i: usize = 0;
                    while i < len
                        invariant
                            len == channel@.len(),
                            i <= len,
                            new_channel@.len() == i,
                            forall|j: int|
                                0 <= j < i ==> #[trigger] new_channel@[j] == band_value(
                                    channel@,
                                    j,
                                    low as int,
                                    high as int,
                                    zero,
                                ),
                        decreases len - i,
                    {
                        if low <= i && i <= high {
                            new_channel.push(channel[i]);
                        } else {
                            new_channel.push(zero);
                        }
                        i = i + 1;
                    }
                    assert(new_channel@ =~= masked(d, |i: int| low <= i <= high, zero)[c as int]);
                    new_data.push(new_channel);
                    c = c + 1;
                }
                assert(grid(new_data) =~= masked(d, |i: int| low <= i <= high, zero));
                self.fft_data = Some(new_data);
                proof {
                    self.lemma_views();
                }
                Ok(())
            },
        }
    }

    /// Apply a lowpass filter at bin `cutoff_bin`: every bin above
    /// `cutoff_bin` becomes `zero`; the cutoff bin and those below it stay.
    pub fn apply_lowpass_bins(&mut self, cutoff_bin: usize, zero: B) -> (r: Result<(), AudioError>)
        requires
            old(self).wf(),
        ensures
            final(self).wf(),
            old(self).spectrum_view() is None ==> r == Err::<(), AudioError>(AudioError::NoFftData)
                && *final(self) == *old(self),
            old(self).spectrum_view() is Some ==> {
                &&& r is Ok
                &&& final(self).spectrum_view() == Some(
                    masked(old(self).spectrum_view().unwrap(), |i: int| i <= cutoff_bin, zero),
                )
                &&& final(self).time_view() == old(self).time_view()
                &&& final(self).stash_view() == old(self).stash_view()
                &&& final(self).sample_rate() == old(self).sample_rate()
                &&& final(self).channels() == old(self).channels()
                &&& final(self).fft_size() == old(self).fft_size()
                &&& final(self).spec_max_amplitude() == old(self).spec_max_amplitude()
            },
    {
        let r = self.apply_mask(0, cutoff_bin, zero);
        proof {
            if old(self).spectrum_view() is Some {
                let d = old(self).spectrum_view().unwrap();
                assert(masked(d, |i: int| 0 <= i <= cutoff_bin, zero) =~~= masked(
                    d,
                    |i: int| i <= cutoff_bin,
                    zero,
                ));
            }
        }
        r
    }

    /// Apply a highpass filter at bin `cutoff_bin`: every bin below
    /// `cutoff_bin` becomes `zero`.
    pub fn apply_highpass_bins(&mut self, cutoff_bin: usize, zero: B) -> (r: Result<(), AudioError>)
        requires
            old(self).wf(),
        ensures
            final(self).wf(),
            old(self).spectrum_view() is None ==> r == Err::<(), AudioError>(AudioError::NoFftData)
                && *final(self) == *old(self),
            old(self).spectrum_view() is Some ==> {
                &&& r is Ok
                &&& final(self).spectrum_view() == Some(
                    masked(old(self).spectrum_view().unwrap(), |i: int| i >= cutoff_bin, zero),
                )
                &&& final(self).time_view() == old(self).time_view()
                &&& final(self).stash_view() == old(self).stash_view()
                &&& final(self).sample_rate() == old(self).sample_rate()
                &&& final(self).channels() == old(self).channels()
                &&& final(self).fft_size() == old(self).fft_size()
                &&& final(self).spec_max_amplitude() == old(self).spec_max_amplitude()
            },
    {
        proof {
            self.lemma_views();
        }
        let last_bin = match &self.fft_data {
            Some(data) => {
                assert(grid(*data)[0] == data@[0]@);
                data[0].len() - 1
            },
            None => 0,
        };
        let r = self.apply_mask(cutoff_bin, last_bin, zero);
        proof {
            if old(self).spectrum_view() is Some {
                let d = old(self).spectrum_view().unwrap();
                assert(masked(d, |i: int| cutoff_bin <= i <= last_bin, zero) =~~= masked(
                    d,
                    |i: int| i >= cutoff_bin,
                    zero,
                ));
            }
        }
        r
    }

    /// Apply a bandpass filter between bins `low_bin` and `high_bin`: every
    /// bin outside `low_bin ..= high_bin` becomes `zero`.
    pub fn apply_bandpass_bins(&mut self, low_bin: usize, high_bin: usize, zero: B) -> (r: Result<
        (),
        AudioError,
    >)
        requires
            old(self).wf(),
        ensures
            final(self).wf(),
            old(self).spectrum_view() is None ==> r == Err::<(), AudioError>(AudioError::NoFftData)
                && *final(self) == *old(self),
            old(self).spectrum_view() is Some ==> {
                &&& r is Ok
                &&& final(self).spectrum_view() == Some(
                    masked(
                        old(self).spectrum_view().unwrap(),
                        |i: int| low_bin <= i <= high_bin,
                        zero,
                    ),
                )
                &&& final(self).time_view() == old(self).time_view()
                &&& final(self).stash_view() == old(self).stash_view()
                &&& final(self).sample_rate() == old(self).sample_rate()
                &&& final(self).channels() == old(self).channels()
                &&& final(self).fft_size() == old(self).fft_size()
                &&& final(self).spec_max_amplitude() == old(self).spec_max_amplitude()
            },
    {
        self.apply_mask(low_bin, high_bin, zero)
    }
    /// Shape every bin after DC by an envelope: bin `i` becomes
    /// `shape(bin, i)` (for a chord filter, its amplitude scaled by the
    /// envelope at `i`, with its phase); DC is kept.
    pub fn apply_envelope_by<F: Fn(B, usize) -> B>(&mut self, shape: F) -> (r: Result<(), AudioError>)
        requires
            old(self).wf(),
            forall|x: B, i: usize| shape.requires((x, i)),
        ensures
            final(self).wf(),
            old(self).spectrum_view() is None ==> r == Err::<(), AudioError>(AudioError::NoFftData)
                && *final(self) == *old(self),
            old(self).spectrum_view() is Some ==> {
                let d = old(self).spectrum_view().unwrap();
                let e = final(self).spectrum_view().unwrap();
                &&& r is Ok
                &&& final(self).spectrum_view() is Some
                &&& same_shape(e, d)
                &&& forall|c: int, i: int|
                    0 <= c < e.len() && 0 <= i < e[c].len() ==> {
                        &&& i == 0 ==> #[trigger] e[c][i] == d[c][i]
                        &&& i > 0 ==> shape.ensures((d[c][i], i as usize), e[c][i])
                    }
                &&& final(self).time_view() == old(self).time_view()
                &&& final(self).stash_view() == old(self).stash_view()
                &&& final(self).sample_rate() == old(self).sample_rate()
                &&& final(self).channels() == old(self).channels()
                &&& final(self).fft_size() == old(self).fft_size()
                &&& final(self).spec_max_amplitude() == old(self).spec_max_amplitude()
            },
    {
        let ghost old_self = *self;
        let shape_ref = &shape;
        let f = |ch: &Vec<B>, i: usize| -> (v: B)
            requires
                i < ch@.len(),
                forall|x: B, i: usize| shape_ref.requires((x, i)),
            ensures
                i == 0 ==> v == ch@[i as int],
                i > 0 ==> shape_ref.ensures((ch@[i as int], i), v),
            {
                if i == 0 {
                    ch[i]
                } else {
                    shape_ref(ch[i], i)
                }
            };
        let r = self.map_spectrum(f);
        proof {
            old_self.lemma_views();
            if old_self.spectrum_view() is Some {
                let d = old_self.spectrum_view().unwrap();
                let vecs = old_self.spectrum_vecs().unwrap()@;
                let e = self.spectrum_view().unwrap();
                assert forall|c: int, i: int| 0 <= c < e.len() && 0 <= i < e[c].len() implies {
                    &&& i == 0 ==> #[trigger] e[c][i] == d[c][i]
                    &&& i > 0 ==> shape.ensures((d[c][i], i as usize), e[c][i])
                } by {
                    assert(vecs[c]@ == d[c]);
                    assert(vecs[c]@.len() == vecs[c].len());
                    assert(e[c].len() == d[c].len());
                    assert((i as usize) as int == i);
                    assert(f.ensures((&vecs[c], i as usize), e[c][i]));
                }
            }
        }
        r
    }
}

} // verus!
