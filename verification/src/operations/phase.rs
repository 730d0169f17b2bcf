//! Phase effects, and the clean-up of DC and Nyquist before an inverse transform.

use vstd::prelude::*;

use crate::error::AudioError;
use crate::processor::{same_shape, AudioProcessor};

verus! {

impl<S: Copy, B: Copy> AudioProcessor<S, B> {
    /// Treat DC and Nyquist apart from the other bins: bin 0 and the last
    /// bin become `ends(bin)` (for a phase multiplication, their real part
    /// alone), every other bin becomes `inner(bin)`.
    pub fn apply_phase_multiply_by<G: Fn(B) -> B, H: Fn(B) -> B>(&mut self, ends: G, inner: H) -> (r:
        Result<(), AudioError>)
        requires
            old(self).wf(),
            forall|x: B| ends.requires((x,)),
            forall|x: B| inner.requires((x,)),
        ensures
            final(self).wf(),
            old(self).spectrum_view() is None ==> r == Err::<(), AudioError>(AudioError::NoFftData)
                && *final(self) == *old(self),
            old(self).spectrum_view() is Some ==> {
                let d = old(self).spectrum_view().unwrap();
                let e = final(self).spectrum_view().unwrap();
                &&& r is Ok
                &&& final(self).spectrum_view() is Some
                &&& same_shape(e, d)
                &&& forall|c: int, i: int|
                    0 <= c < e.len() && 0 <= i < e[c].len() ==> {
                        &&& (i == 0 || i == e[c].len() - 1) ==> ends.ensures(
                            (d[c][i],),
                            #[trigger] e[c][i],
                        )
                        &&& 0 < i < e[c].len() - 1 ==> inner.ensures((d[c][i],), e[c][i])
                    }
                &&& final(self).time_view() == old(self).time_view()
                &&& final(self).stash_view() == old(self).stash_view()
                &&& final(self).sample_rate() == old(self).sample_rate()
                &&& final(self).channels() == old(self).channels()
                &&& final(self).fft_size() == old(self).fft_size()
                &&& final(self).spec_max_amplitude() == old(self).spec_max_amplitude()
            },
    {
        let ghost old_self = *self;
        let ends_ref = &ends;
        let inner_ref = &inner;
        let f = |ch: &Vec<B>, i: usize| -> (v: B)
            requires
                i < ch@.len(),
                forall|x: B| ends_ref.requires((x,)),
                forall|x: B| inner_ref.requires((x,)),
            ensures
                (i == 0 || i == ch@.len() - 1) ==> ends_ref.ensures((ch@[i as int],), v),
                0 < i < ch@.len() - 1 ==> inner_ref.ensures((ch@[i as int],), v),
            {
                if i == 0 || i == ch.len() - 1 {
                    ends_ref(ch[i])
                } else {
                    inner_ref(ch[i])
                }
            };
        let r = self.map_spectrum(f);
        proof {
            old_self.lemma_views();
            if old_self.spectrum_view() is Some {
                let d = old_self.spectrum_view().unwrap();
                let vecs = old_self.spectrum_vecs().unwrap()@;
                let e = self.spectrum_view().unwrap();
                assert forall|c: int, i: int| 0 <= c < e.len() && 0 <= i < e[c].len() implies {
                    &&& (i == 0 || i == e[c].len() - 1) ==> ends.ensures((d[c][i],), #[trigger] e[c][i])
                    &&& 0 < i < e[c].len() - 1 ==> inner.ensures((d[c][i],), e[c][i])
                } by {
                    assert(vecs[c]@ == d[c]);
                    assert(vecs[c]@.len() == vecs[c].len());
                    assert(e[c].len() == d[c].len());
                    assert((i as usize) as int == i);
                    assert(f.ensures((&vecs[c], i as usize), e[c][i]));
                }
            }
        }
        r
    }

    /// Prepare the spectrum for an inverse transform of real data: DC and
    /// Nyquist become `realify(bin)` (their real part alone), the other bins
    /// stay. Without a spectrum there is nothing to prepare.
    pub fn prepare_for_ifft_by<G: Fn(B) -> B>(&mut self, realify: G) -> (r: Result<(), AudioError>)
        requires
            old(self).wf(),
            forall|x: B| realify.requires((x,)),
        ensures
            final(self).wf(),
            r is Ok,
            old(self).spectrum_view() is None ==> *final(self) == *old(self),
            old(self).spectrum_view() is Some ==> {
                let d = old(self).spectrum_view().unwrap();
                let e = final(self).spectrum_view().unwrap();
                &&& final(self).spectrum_view() is Some
                &&& same_shape(e, d)
                &&& forall|c: int, i: int|
                    0 <= c < e.len() && 0 <= i < e[c].len() ==> {
                        &&& (i == 0 || i == e[c].len() - 1) ==> realify.ensures(
                            (d[c][i],),
                            #[trigger] e[c][i],
                        )
                        &&& 0 < i < e[c].len() - 1 ==> e[c][i] == d[c][i]
                    }
                &&& final(self).time_view() == old(self).time_view()
                &&& final(self).stash_view() == old(self).stash_view()
                &&& final(self).sample_rate() == old(self).sample_rate()
                &&& final(self).channels() == old(self).channels()
                &&& final(self).fft_size() == old(self).fft_size()
                &&& final(self).spec_max_amplitude() == old(self).spec_max_amplitude()
            },
    {
        let ghost old_self = *self;
        let realify_ref = &realify;
        let f = |ch: &Vec<B>, i: usize| -> (v: B)
            requires
                i < ch@.len(),
                forall|x: B| realify_ref.requires((x,)),
            ensures
                (i == 0 || i == ch@.len() - 1) ==> realify_ref.ensures((ch@[i as int],), v),
                0 < i < ch@.len() - 1 ==> v == ch@[i as int],
            {
                if i == 0 || i == ch.len() - 1 {
                    realify_ref(ch[i])
                } else {
                    ch[i]
                }
            };
        let r = self.map_spectrum(f);
        proof {
            old_self.lemma_views();
            if old_self.spectrum_view() is Some {
                let d = old_self.spectrum_view().unwrap();
                let vecs = old_self.spectrum_vecs().unwrap()@;
                let e = self.spectrum_view().unwrap();
                assert forall|c: int, i: int| 0 <= c < e.len() && 0 <= i < e[c].len() implies {
                    &&& (i == 0 || i == e[c].len() - 1) ==> realify.ensures(
                        (d[c][i],),
                        #[trigger] e[c][i],
                    )
                    &&& 0 < i < e[c].len() - 1 ==> e[c][i] == d[c][i]
                } by {
                    assert(vecs[c]@ == d[c]);
                    assert(vecs[c]@.len() == vecs[c].len());
                    assert(e[c].len() == d[c].len());
                    assert((i as usize) as int == i);
                    assert(f.ensures((&vecs[c], i as usize), e[c][i]));
                }
            }
        }
        match r {
            Ok(()) => Ok(()),
            Err(_) => Ok(()),
        }
    }
}

} // verus!
