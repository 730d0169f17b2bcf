//! Amplitude effects that look at neighbouring bins.

use vstd::prelude::*;

use crate::error::AudioError;
use crate::processor::{same_shape, AudioProcessor};

verus! {

impl<S: Copy, B: Copy> AudioProcessor<S, B> {
    /// Replace every bin after DC by `derive(previous, bin, previous_is_dc)`,
    /// computed from the channel as it was (the derivative of the amplitude,
    /// with the bin's phase); DC is kept.
    pub fn apply_amplitude_derivative_by<F: Fn(B, B, bool) -> B>(&mut self, derive: F) -> (r:
        Result<(), AudioError>)
        requires
            old(self).wf(),
            forall|p: B, x: B, first: bool| derive.requires((p, x, first)),
        ensures
            final(self).wf(),
            old(self).spectrum_view() is None ==> r == Err::<(), AudioError>(AudioError::NoFftData)
                && *final(self) == *old(self),
            old(self).spectrum_view() is Some ==> {
                let d = old(self).spectrum_view().unwrap();
                let e = final(self).spectrum_view().unwrap();
                &&& r is Ok
                &&& final(self).spectrum_view() is Some
                &&& same_shape(e, d)
                &&& forall|c: int, i: int|
                    0 <= c < e.len() && 0 <= i < e[c].len() ==> {
                        &&& i == 0 ==> #[trigger] e[c][i] == d[c][i]
                        &&& i > 0 ==> derive.ensures((d[c][i - 1], d[c][i], i == 1), e[c][i])
                    }
                &&& final(self).time_view() == old(self).time_view()
                &&& final(self).stash_view() == old(self).stash_view()
                &&& final(self).sample_rate() == old(self).sample_rate()
                &&& final(self).channels() == old(self).channels()
                &&& final(self).fft_size() == old(self).fft_size()
                &&& final(self).spec_max_amplitude() == old(self).spec_max_amplitude()
            },
    {
        let ghost old_self = *self;
        let derive_ref = &derive;
        let f = |ch: &Vec<B>, i: usize| -> (v: B)
            requires
                i < ch@.len(),
                forall|p: B, x: B, first: bool| derive_ref.requires((p, x, first)),
            ensures
                i == 0 ==> v == ch@[i as int],
                i > 0 ==> derive_ref.ensures((ch@[i - 1], ch@[i as int], i == 1), v),
            {
                if i == 0 {
                    ch[i]
                } else {
                    derive_ref(ch[i - 1], ch[i], i == 1)
                }
            };
        let r = self.map_spectrum(f);
        proof {
            old_self.lemma_views();
            if old_self.spectrum_view() is Some {
                let d = old_self.spectrum_view().unwrap();
                let vecs = old_self.spectrum_vecs().unwrap()@;
                let e = self.spectrum_view().unwrap();
                assert forall|c: int, i: int| 0 <= c < e.len() && 0 <= i < e[c].len() implies {
                    &&& i == 0 ==> #[trigger] e[c][i] == d[c][i]
                    &&& i > 0 ==> derive.ensures((d[c][i - 1], d[c][i], i == 1), e[c][i])
                } by {
                    assert(vecs[c]@ == d[c]);
                    assert(vecs[c]@.len() == vecs[c].len());
                    assert(e[c].len() == d[c].len());
                    assert((i as usize) as int == i);
                    assert(f.ensures((&vecs[c], i as usize), e[c][i]));
                }
            }
        }
        r
    }
}

} // verus!
