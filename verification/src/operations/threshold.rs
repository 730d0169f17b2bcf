//! Removing bins by their level.

use vstd::prelude::*;

use crate::error::AudioError;
use crate::processor::{same_shape, AudioProcessor};

verus! {

/// What bin `x` becomes when `remove` answers `removed` for it.
pub open spec fn thresholded<B>(x: B, removed: bool, zero: B) -> B {
    if removed {
        zero
    } else {
        x
    }
}

/// `v` is what bin `x` becomes for an answer that `remove` may give for it.
pub open spec fn threshold_result<B, P: Fn(B) -> bool>(remove: P, x: B, v: B, zero: B) -> bool {
    exists|removed: bool| remove.ensures((x,), removed) && v == thresholded(x, removed, zero)
}

impl<S: Copy, B: Copy> AudioProcessor<S, B> {
    /// Remove the bins that `remove` picks: every bin after DC for which
    /// `remove` answers `true` becomes `zero`, the others stay; DC is kept.
    pub fn apply_threshold_by<P: Fn(B) -> bool>(&mut self, remove: P, zero: B) -> (r: Result<
        (),
        AudioError,
    >)
        requires
            old(self).wf(),
            forall|x: B| remove.requires((x,)),
        ensures
            final(self).wf(),
            old(self).spectrum_view() is None ==> r == Err::<(), AudioError>(AudioError::NoFftData)
                && *final(self) == *old(self),
            old(self).spectrum_view() is Some ==> {
                let d = old(self).spectrum_view().unwrap();
                let e = final(self).spectrum_view().unwrap();
                &&& r is Ok
                &&& final(self).spectrum_view() is Some
                &&& same_shape(e, d)
                &&& forall|c: int, i: int|
                    0 <= c < e.len() && 0 <= i < e[c].len() ==> {
                        &&& i == 0 ==> #[trigger] e[c][i] == d[c][i]
                        &&& i > 0 ==> threshold_result(remove, d[c][i], e[c][i], zero)
                    }
                &&& final(self).time_view() == old(self).time_view()
                &&& final(self).stash_view() == old(self).stash_view()
                &&& final(self).sample_rate() == old(self).sample_rate()
                &&& final(self).channels() == old(self).channels()
                &&& final(self).fft_size() == old(self).fft_size()
                &&& final(self).spec_max_amplitude() == old(self).spec_max_amplitude()
            },
    {
        let ghost old_self = *self;
        let remove_ref = &remove;
        let f = |ch: &Vec<B>, i: usize| -> (v: B)
            requires
                i < ch@.len(),
                forall|x: B| remove_ref.requires((x,)),
            ensures
                i == 0 ==> v == ch@[i as int],
                i > 0 ==> threshold_result(*remove_ref, ch@[i as int], v, zero),
            {
                if i == 0 {
                    ch[i]
                } else {
                    let x = ch[i];
                    let removed = remove_ref(x);
                    let v = if removed {
                        zero
                    } else {
                        x
                    };
                    assert(remove_ref.ensures((ch@[i as int],), removed));
                    assert(v == thresholded(ch@[i as int], removed, zero));
                    v
                }
            };
        let r = self.map_spectrum(f);
        proof {
            old_self.lemma_views();
            if old_self.spectrum_view() is Some {
                let d = old_self.spectrum_view().unwrap();
                let vecs = old_self.spectrum_vecs().unwrap()@;
                let e = self.spectrum_view().unwrap();
                assert forall|c: int, i: int| 0 <= c < e.len() && 0 <= i < e[c].len() implies {
                    &&& i == 0 ==> #[trigger] e[c][i] == d[c][i]
                    &&& i > 0 ==> threshold_result(remove, d[c][i], e[c][i], zero)
                } by {
                    assert(vecs[c]@ == d[c]);
                    assert(vecs[c]@.len() == vecs[c].len());
                    assert(e[c].len() == d[c].len());
                    assert((i as usize) as int == i);
                    assert(f.ensures((&vecs[c], i as usize), e[c][i]));
                }
            }
        }
        r
    }
}

} // verus!
