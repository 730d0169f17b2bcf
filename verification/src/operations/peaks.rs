//! Keeping the local peaks of the spectrum.

use vstd::prelude::*;

use crate::error::AudioError;
use crate::processor::{same_shape, AudioProcessor};

verus! {

impl<S: Copy, B: Copy> AudioProcessor<S, B> {
    /// Keep the local peaks of every channel: each bin strictly between DC
    /// and the last bin becomes `judge(previous, bin, next)`, computed from
    /// the channel as it was (the judge keeps a peak and silences any other
    /// bin); DC and the last bin stay as they are.
    pub fn keep_peaks_by<F: Fn(B, B, B) -> B>(&mut self, judge: F) -> (r: Result<(), AudioError>)
        requires
            old(self).wf(),
            forall|a: B, b: B, c: B| judge.requires((a, b, c)),
        ensures
            final(self).wf(),
            old(self).spectrum_view() is None ==> r == Err::<(), AudioError>(AudioError::NoFftData)
                && *final(self) == *old(self),
            old(self).spectrum_view() is Some ==> {
                let d = old(self).spectrum_view().unwrap();
                let e = final(self).spectrum_view().unwrap();
                &&& r is Ok
                &&& final(self).spectrum_view() is Some
                &&& same_shape(e, d)
                &&& forall|c: int, i: int|
                    0 <= c < e.len() && 0 <= i < e[c].len() ==> {
                        &&& (i == 0 || i == e[c].len() - 1) ==> #[trigger] e[c][i] == d[c][i]
                        &&& 0 < i < e[c].len() - 1 ==> judge.ensures(
                            (d[c][i - 1], d[c][i], d[c][i + 1]),
                            e[c][i],
                        )
                    }
                &&& final(self).time_view() == old(self).time_view()
                &&& final(self).stash_view() == old(self).stash_view()
                &&& final(self).sample_rate() == old(self).sample_rate()
                &&& final(self).channels() == old(self).channels()
                &&& final(self).fft_size() == old(self).fft_size()
                &&& final(self).spec_max_amplitude() == old(self).spec_max_amplitude()
            },
    {
        let ghost old_self = *self;
        let judge = &judge;
        let f = |ch: &Vec<B>, i: usize| -> (v: B)
            requires
                i < ch@.len(),
                forall|a: B, b: B, c: B| judge.requires((a, b, c)),
            ensures
                (i == 0 || i == ch@.len() - 1) ==> v == ch@[i as int],
                0 < i < ch@.len() - 1 ==> judge.ensures(
                    (ch@[i - 1], ch@[i as int], ch@[i + 1]),
                    v,
                ),
            {
                if i == 0 || i >= ch.len() - 1 {
                    ch[i]
                } else {
                    judge(ch[i - 1], ch[i], ch[i + 1])
                }
            };
        let r = self.map_spectrum(f);
        proof {
            old_self.lemma_views();
            if old_self.spectrum_view() is Some {
                let d = old_self.spectrum_view().unwrap();
                let vecs = old_self.spectrum_vecs().unwrap()@;
                let e = self.spectrum_view().unwrap();
                assert forall|c: int, i: int| 0 <= c < e.len() && 0 <= i < e[c].len() implies {
                    &&& (i == 0 || i == e[c].len() - 1) ==> #[trigger] e[c][i] == d[c][i]
                    &&& 0 < i < e[c].len() - 1 ==> judge.ensures(
                        (d[c][i - 1], d[c][i], d[c][i + 1]),
                        e[c][i],
                    )
                } by {
                    assert(vecs[c]@ == d[c]);
                    assert(vecs[c]@.len() == vecs[c].len());
                    assert(e[c].len() == d[c].len());
                    assert((i as usize) as int == i);
                    assert(f.ensures((&vecs[c], i as usize), e[c][i]));
                }
            }
        }
        r
    }
}

} // verus!
