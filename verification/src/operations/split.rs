//! Splitting the spectrum into parts.
//!
//! Every bin is assigned to a part; preparing part `p` keeps the bins assigned
//! to `p` and zeroes all others, and keeps the whole spectrum aside so that
//! the split can be undone. Bin 0 (DC) always belongs to part 0.

use vstd::prelude::*;

use crate::error::AudioError;
use crate::processor::{grid, is_rectangular, opt_grid, AudioProcessor};

verus! {

/// The part of bin `bin` when `num_freq_bins` frequency bins are shared
/// evenly by `num_parts` parts: bin 0 (DC) goes to part 0, and bin `b >= 1`
/// to the part whose share of `1 ..= num_freq_bins` holds it.
pub open spec fn lin_part(bin: int, num_freq_bins: int, num_parts: int) -> int {
    if bin == 0 {
        0
    } else {
        (bin - 1) * num_parts / num_freq_bins
    }
}

/// The linear assignment, in the real layout (`num_freq_bins + 1` bins) or
/// the complex layout (`2 * num_freq_bins` bins, the upper half mirroring the lower).
pub open spec fn lin_assignment(num_freq_bins: int, num_parts: int, complex: bool) -> Seq<usize> {
    if complex {
        Seq::new(
            (2 * num_freq_bins) as nat,
            |i: int|
                if i <= num_freq_bins {
                    lin_part(i, num_freq_bins, num_parts) as usize
                } else {
                    lin_part(2 * num_freq_bins - i, num_freq_bins, num_parts) as usize
                },
        )
    } else {
        Seq::new(
            (num_freq_bins + 1) as nat,
            |i: int| lin_part(i, num_freq_bins, num_parts) as usize,
        )
    }
}

/// A base assignment with every entry folded onto `num_parts` parts: fine
/// part `i` goes to part `i % num_parts`.
pub open spec fn grouped_assignment(base: Seq<usize>, num_parts: int) -> Seq<usize> {
    Seq::new(base.len(), |i: int| (base[i] % (num_parts as usize)) as usize)
}

/// The spectrum `d` with only the bins assigned to `part` kept, all others `zero`.
pub open spec fn split_part<B>(d: Seq<Seq<B>>, assignment: Seq<usize>, part: usize, zero: B) -> Seq<
    Seq<B>,
> {
    Seq::new(
        d.len(),
        |c: int| Seq::new(d[c].len(), |b: int| if assignment[b] == part { d[c][b] } else { zero }),
    )
}

/// The part of bin `bin` below `num_parts` parts.
proof fn lemma_lin_part_bound(bin: int, num_freq_bins: int, num_parts: int)
    requires
        0 <= bin <= num_freq_bins,
        num_freq_bins >= 1 || bin == 0,
        num_parts >= 0,
    ensures
        0 <= lin_part(bin, num_freq_bins, num_parts) <= num_parts,
        num_parts >= 1 ==> lin_part(bin, num_freq_bins, num_parts) < num_parts,
{
    if bin > 0 {
        let x = bin - 1;
        assert(0 <= x * num_parts) by (nonlinear_arith)
            requires
                x >= 0,
                num_parts >= 0,
        ;
        assert(x * num_parts / num_freq_bins <= num_parts && (num_parts >= 1 ==> x * num_parts
            / num_freq_bins < num_parts)) by (nonlinear_arith)
            requires
                0 <= x < num_freq_bins,
                num_parts >= 0,
        ;
        assert(0 <= x * num_parts / num_freq_bins) by (nonlinear_arith)
            requires
                0 <= x * num_parts,
                num_freq_bins >= 1,
        ;
    }
}

impl<S: Copy, B: Copy> AudioProcessor<S, B> {
    /// The part of a frequency bin `bin >= 1` under the linear distribution.
    fn lin_part_of(bin: usize, num_freq_bins: usize, num_parts: usize) -> (r: usize)
        requires
            1 <= bin <= num_freq_bins,
        ensures
            r == lin_part(bin as int, num_freq_bins as int, num_parts as int),
    {
        proof {
            lemma_lin_part_bound(bin as int, num_freq_bins as int, num_parts as int);
            let x = bin - 1;
            assert(x * num_parts <= u128::MAX) by (nonlinear_arith)
                requires
                    0 <= x <= usize::MAX,
                    0 <= num_parts <= usize::MAX,
            ;
        }
        let product: u128 = ((bin - 1) as u128) * (num_parts as u128);
        (product / (num_freq_bins as u128)) as usize
    }

    /// Distribute bins linearly, using either the real or the complex layout.
    ///
    /// `num_freq_bins` is the number of frequencies: an FFT of 1024 points
    /// has 512. The real layout has DC plus the frequencies (513 bins, 0 = DC,
    /// 512 = Nyquist); the complex layout has 1024 bins whose upper half
    /// mirrors the lower one. Every part receives an equal share of the
    /// frequency bins, in order; DC goes to part 0.
    pub fn distribute_lin_bins(num_freq_bins: usize, num_parts: usize, complex: bool) -> (r: Vec<
        usize,
    >)
        requires
            complex ==> 1 <= num_freq_bins <= usize::MAX / 2,
            !complex ==> num_freq_bins < usize::MAX,
        ensures
            r@ == lin_assignment(num_freq_bins as int, num_parts as int, complex),
    {
        let num_bins = if complex {
            num_freq_bins * 2
        } else {
            num_freq_bins + 1
        };
        let mut bin_assignments: Vec<usize> = Vec::new();
        let mut i: usize = 0;
        while i < num_bins
            invariant
                i <= num_bins,
                num_bins == if complex {
                    2 * num_freq_bins
                } else {
                    num_freq_bins + 1
                },
                complex ==> 1 <= num_freq_bins <= usize::MAX / 2,
                bin_assignments@.len() == i,
                forall|j: int|
                    0 <= j < i ==> #[trigger] bin_assignments@[j] == lin_assignment(
                        num_freq_bins as int,
                        num_parts as int,
                        complex,
                    )[j],
            decreases num_bins - i,
        {
            // The frequency bin that this bin mirrors.
            let bin = if i <= num_freq_bins {
                i
            } else {
                2 * num_freq_bins - i
            };
            let part = if bin == 0 {
                // DC component - assign to first part
                0
            } else {
                Self::lin_part_of(bin, num_freq_bins, num_parts)
            };
            proof {
                lemma_lin_part_bound(bin as int, num_freq_bins as int, num_parts as int);
            }
            bin_assignments.push(part);
            i = i + 1;
        }
        assert(bin_assignments@ =~= lin_assignment(num_freq_bins as int, num_parts as int, complex));
        bin_assignments
    }

    /// Distribute bins in groups: `distribution` first shares the frequency
    /// bins among `num_freq_bins / group_size` fine parts, which are then
    /// handed to the `num_parts` parts in turn (fine part `i` to part
    /// `i % num_parts`). With `group_size == 0`, `distribution` shares the bins
    /// among the `num_parts` parts directly.
    ///
    /// For the linear distribution, with 16 frequency bins, group size 2 and
    /// 4 parts, bins 1, 2 go to part 0, bins 3, 4 to part 1, and so on, with
    /// bins 9, 10 back at part 0.
    pub fn distribute_grouped<F: Fn(usize, usize, bool) -> Vec<usize>>(
        num_freq_bins: usize,
        num_parts: usize,
        complex: bool,
        group_size: usize,
        distribution: &F,
    ) -> (r: Vec<usize>)
        requires
            group_size == 0 ==> distribution.requires((num_freq_bins, num_parts, complex)),
            group_size >= 1 ==> {
                &&& num_parts >= 1
                &&& distribution.requires((num_freq_bins, num_freq_bins / group_size, complex))
            },
        ensures
            group_size == 0 ==> distribution.ensures((num_freq_bins, num_parts, complex), r),
            group_size >= 1 ==> exists|base: Vec<usize>|
                {
                    &&& distribution.ensures(
                        (num_freq_bins, num_freq_bins / group_size, complex),
                        base,
                    )
                    &&& r@ == grouped_assignment(#[trigger] base@, num_parts as int)
                },
    {
        if group_size < 1 {
            return distribution(num_freq_bins, num_parts, complex);
        }
        let base = distribution(num_freq_bins, num_freq_bins / group_size, complex);
        let ghost base_view = base@;
        let mut bin_assignments = base;
        let len = bin_assignments.len();
        let mut bin: usize = 0;
        while bin < len
            invariant
                bin <= len,
                len == base_view.len(),
                num_parts >= 1,
                bin_assignments@.len() == base_view.len(),
                forall|i: int|
                    0 <= i < base_view.len() ==> #[trigger] bin_assignments@[i] == if i < bin {
                        (base_view[i] % num_parts) as usize
                    } else {
                        base_view[i]
                    },
            decreases len - bin,
        {
            let folded = bin_assignments[bin] % num_parts;
            bin_assignments.set(bin, folded);
            bin = bin + 1;
        }
        assert(bin_assignments@ =~= grouped_assignment(base_view, num_parts as int));
        bin_assignments
    }
}

/// `assignment` is what the split asks of `distribution` for `num_freq_bins`
/// frequency bins: directly for `num_parts` parts when `group_size == 0`,
/// else grouped.
pub open spec fn split_assignment<F: Fn(usize, usize, bool) -> Vec<usize>>(
    distribution: F,
    num_freq_bins: usize,
    num_parts: usize,
    group_size: usize,
    assignment: Seq<usize>,
) -> bool {
    if group_size == 0 {
        exists|v: Vec<usize>|
            #[trigger] distribution.ensures((num_freq_bins, num_parts, false), v) && v@ == assignment
    } else {
        exists|base: Vec<usize>|
            #[trigger] distribution.ensures((num_freq_bins, num_freq_bins / group_size, false), base)
                && assignment == grouped_assignment(base@, num_parts as int)
    }
}

impl<S: Copy, B: Copy> AudioProcessor<S, B> {
    /// The channels of `data` with only the bins assigned to `part_index` kept.
    fn split_channels(data: &Vec<Vec<B>>, bin_assignments: &Vec<usize>, part_index: usize, zero: B) -> (r:
        Vec<Vec<B>>)
        requires
            is_rectangular(grid(*data)),
            bin_assignments@.len() == data@[0]@.len(),
        ensures
            grid(r) == split_part(grid(*data), bin_assignments@, part_index, zero),
            is_rectangular(grid(r)),
    {
        let ghost d = grid(*data);
        let num_channels = data.len();
        let bins_per_channel = data[0].len();
        let mut new_fft_data: Vec<Vec<B>> = Vec::new();
        let mut channel: usize = 0;
        while channel < num_channels
            invariant
                d == grid(*data),
                is_rectangular(d),
                num_channels == d.len(),
                bins_per_channel == d[0].len(),
                bin_assignments@.len() == bins_per_channel,
                channel <= num_channels,
                new_fft_data@.len() == channel,
                forall|c: int|
                    0 <= c < channel ==> (#[trigger] new_fft_data@[c])@ == split_part(
                        d,
                        bin_assignments@,
                        part_index,
                        zero,
                    )[c],
            decreases num_channels - channel,
        {
            let src = &data[channel];
            assert(src@ == d[channel as int]);
            assert(d[channel as int].len() == bins_per_channel);
            let mut new_channel: Vec<B> = Vec::new();
            let mut bin: usize = 0;
            while bin < bins_per_channel
                invariant
                    src@ == d[channel as int],
                    src@.len() == bins_per_channel,
                    bin_assignments@.len() == bins_per_channel,
                    bin <= bins_per_channel,
                    new_channel@.len() == bin,
                    forall|b: int|
                        0 <= b < bin ==> #[trigger] new_channel@[b] == if bin_assignments@[b]
                            == part_index {
                            src@[b]
                        } else {
                            zero
                        },
                decreases bins_per_channel - bin,
            {
                if bin_assignments[bin] == part_index {
                    new_channel.push(src[bin]);
                } else {
                    new_channel.push(zero);
                }
                bin = bin + 1;
            }
            assert(new_channel@ =~= split_part(d, bin_assignments@, part_index, zero)[channel as int]);
            new_fft_data.push(new_channel);
            channel = channel + 1;
        }
        assert(grid(new_fft_data) =~= split_part(d, bin_assignments@, part_index, zero));
        new_fft_data
    }

    /// Split the frequency spectrum into parts, keeping only part `part_index`.
    ///
    /// The bins of the `fft_size / 2 + 1` bin spectrum are assigned to
    /// `num_parts` parts by `distribution` (for instance
    /// `distribute_lin_bins`), in groups of `group_size` when it is not 0
    /// (see `distribute_grouped`). The bins of part `part_index` keep their
    /// value, all others become `zero`. The full spectrum is kept aside, and
    /// `reset_split` brings it back.
    pub fn prepare_split_part<F: Fn(usize, usize, bool) -> Vec<usize>>(
        &mut self,
        part_index: usize,
        num_parts: usize,
        group_size: usize,
        distribution: &F,
        zero: B,
    ) -> (r: Result<(), AudioError>)
        requires
            old(self).wf(),
            forall|n: usize, p: usize| n < usize::MAX ==> distribution.requires((n, p, false)),
        ensures
            final(self).wf(),
            num_parts == 0 ==> r == Err::<(), AudioError>(AudioError::ZeroParts),
            num_parts > 0 && part_index >= num_parts ==> r == Err::<(), AudioError>(
                AudioError::PartIndexOutOfRange { part_index, num_parts },
            ),
            part_index < num_parts && old(self).spectrum_view() is None ==> r == Err::<(), AudioError>(
                AudioError::NoFftDataForSplit,
            ),
            part_index < num_parts && old(self).spectrum_view() is Some ==> exists|a: Seq<usize>|
                {
                    &&& #[trigger] split_assignment(
                        *distribution,
                        (old(self).fft_size() / 2) as usize,
                        num_parts,
                        group_size,
                        a,
                    )
                    &&& if a.len() == old(self).spectrum_view().unwrap()[0].len() {
                        &&& r is Ok
                        &&& final(self).spectrum_view() == Some(
                            split_part(old(self).spectrum_view().unwrap(), a, part_index, zero),
                        )
                        &&& final(self).stash_view() == old(self).spectrum_view()
                        &&& final(self).time_view() == old(self).time_view()
                        &&& final(self).sample_rate() == old(self).sample_rate()
                        &&& final(self).channels() == old(self).channels()
                        &&& final(self).fft_size() == old(self).fft_size()
                        &&& final(self).spec_max_amplitude() == old(self).spec_max_amplitude()
                    } else {
                        r == Err::<(), AudioError>(AudioError::AssignmentLengthMismatch)
                    }
                },
            r is Err ==> *final(self) == *old(self),
    {
        proof {
            self.lemma_views();
        }
        if num_parts == 0 {
            return Err(AudioError::ZeroParts);
        }
        if part_index >= num_parts {
            return Err(AudioError::PartIndexOutOfRange { part_index, num_parts });
        }
        let num_freq_bins = self.fft_size / 2;
        let bin_assignments = if group_size == 0 {
            distribution(num_freq_bins, num_parts, false)
        } else {
            Self::distribute_grouped(num_freq_bins, num_parts, false, group_size, distribution)
        };
        let ghost a = bin_assignments@;
        assert(split_assignment(*distribution, num_freq_bins, num_parts, group_size, a));
        match &self.fft_data {
            None => Err(AudioError::NoFftDataForSplit),
            Some(data) => {
                assert(grid(*data)[0] == data@[0]@);
                if data[0].len() != bin_assignments.len() {
                    return Err(AudioError::AssignmentLengthMismatch);
                }
                let new_fft_data = Self::split_channels(data, &bin_assignments, part_index, zero);
                self.tmp_fft_data = self.fft_data.take();
                self.fft_data = Some(new_fft_data);
                proof {
                    self.lemma_views();
                }
                Ok(())
            },
        }
    }

    /// Reset the processor by setting back the spectrum kept aside by
    /// `prepare_split_part`. When nothing was kept aside, nothing was split,
    /// and the spectrum stays as it is.
    pub fn reset_split(&mut self) -> (r: Result<(), AudioError>)
        requires
            old(self).wf(),
        ensures
            final(self).wf(),
            r is Ok,
            final(self).spectrum_view() == if old(self).stash_view() is Some {
                old(self).stash_view()
            } else {
                old(self).spectrum_view()
            },
            final(self).stash_view() is None,
            final(self).time_view() == old(self).time_view(),
            final(self).sample_rate() == old(self).sample_rate(),
            final(self).channels() == old(self).channels(),
            final(self).fft_size() == old(self).fft_size(),
            final(self).spec_max_amplitude() == old(self).spec_max_amplitude(),
    {
        proof {
            self.lemma_views();
        }
        if self.tmp_fft_data.is_some() {
            self.fft_data = self.tmp_fft_data.take();
        }
        proof {
            self.lemma_views();
        }
        Ok(())
    }
}

/// The linear distribution sends every bin to one of the parts, and DC to part 0.
pub proof fn lemma_lin_assignment_in_range(num_freq_bins: int, num_parts: int, complex: bool, i: int)
    requires
        num_parts >= 1,
        num_freq_bins >= 1 || (!complex && num_freq_bins == 0),
        0 <= i < lin_assignment(num_freq_bins, num_parts, complex).len(),
        num_parts <= usize::MAX,
    ensures
        lin_assignment(num_freq_bins, num_parts, complex)[i] < num_parts,
        lin_assignment(num_freq_bins, num_parts, complex)[0] == 0,
{
    let bin = if i <= num_freq_bins { i } else { 2 * num_freq_bins - i };
    lemma_lin_part_bound(bin, num_freq_bins, num_parts);
    lemma_lin_part_bound(0, num_freq_bins, num_parts);
}

/// In the real layout, the linear distribution never goes back to a lower
/// part: each part holds one contiguous band of bins.
pub proof fn lemma_lin_assignment_monotone(num_freq_bins: int, num_parts: int, i: int, j: int)
    requires
        num_freq_bins >= 1,
        num_parts >= 1,
        num_parts <= usize::MAX,
        0 <= i <= j <= num_freq_bins,
    ensures
        lin_assignment(num_freq_bins, num_parts, false)[i] <= lin_assignment(
            num_freq_bins,
            num_parts,
            false,
        )[j],
{
    lemma_lin_part_bound(i, num_freq_bins, num_parts);
    lemma_lin_part_bound(j, num_freq_bins, num_parts);
    if i >= 1 {
        let x = i - 1;
        let y = j - 1;
        assert(x * num_parts <= y * num_parts) by (nonlinear_arith)
            requires
                0 <= x <= y,
                num_parts >= 1,
        ;
        vstd::arithmetic::div_mod::lemma_div_is_ordered(x * num_parts, y * num_parts, num_freq_bins);
    }
}

/// The first frequency bin of part `k` under the linear distribution of
/// `num_freq_bins` bins over `num_parts` parts: one past `ceil(k * num_freq_bins / num_parts)`.
pub open spec fn lin_share_start(num_freq_bins: int, num_parts: int, k: int) -> int {
    (k * num_freq_bins + num_parts - 1) / num_parts + 1
}

/// For `p > 0`: `ceil(y / p) <= x` exactly when `y <= x * p`.
proof fn lemma_ceil_div_le(y: int, x: int, p: int)
    requires
        p > 0,
    ensures
        (y + p - 1) / p <= x <==> y <= x * p,
{
    let z = y + p - 1;
    let q = z / p;
    let r = z % p;
    vstd::arithmetic::div_mod::lemma_fundamental_div_mod(z, p);
    vstd::arithmetic::div_mod::lemma_mod_bound(z, p);
    assert(z == p * q + r);
    if q <= x {
        assert(p * q <= p * x) by (nonlinear_arith)
            requires
                q <= x,
                p > 0,
        ;
        assert(x * p == p * x) by (nonlinear_arith);
    } else {
        assert(p * q >= p * (x + 1)) by (nonlinear_arith)
            requires
                q >= x + 1,
                p > 0,
        ;
        assert(p * (x + 1) == x * p + p) by (nonlinear_arith);
    }
}

/// Dividing a sum rounds down at most once more than dividing its terms.
proof fn lemma_div_of_sum(a: int, b: int, p: int)
    requires
        p > 0,
    ensures
        (a + b) / p == a / p + b / p || (a + b) / p == a / p + b / p + 1,
{
    let qa = a / p;
    let qb = b / p;
    let ra = a % p;
    let rb = b % p;
    vstd::arithmetic::div_mod::lemma_fundamental_div_mod(a, p);
    vstd::arithmetic::div_mod::lemma_fundamental_div_mod(b, p);
    vstd::arithmetic::div_mod::lemma_mod_bound(a, p);
    vstd::arithmetic::div_mod::lemma_mod_bound(b, p);
    assert(p * qa + p * qb == (qa + qb) * p) by (nonlinear_arith);
    if ra + rb < p {
        vstd::arithmetic::div_mod::lemma_fundamental_div_mod_converse(a + b, p, qa + qb, ra + rb);
    } else {
        assert((qa + qb) * p + p == (qa + qb + 1) * p) by (nonlinear_arith);
        vstd::arithmetic::div_mod::lemma_fundamental_div_mod_converse(
            a + b,
            p,
            qa + qb + 1,
            ra + rb - p,
        );
    }
}

/// Under the linear distribution, part `k` holds exactly the frequency bins
/// from `lin_share_start(k)` up to, not including, `lin_share_start(k + 1)`.
pub proof fn lemma_lin_share_membership(num_freq_bins: int, num_parts: int, k: int, b: int)
    requires
        num_freq_bins >= 1,
        1 <= num_parts <= usize::MAX,
        0 <= k < num_parts,
        1 <= b <= num_freq_bins,
    ensures
        lin_assignment(num_freq_bins, num_parts, false)[b] == k <==> lin_share_start(
            num_freq_bins,
            num_parts,
            k,
        ) <= b < lin_share_start(num_freq_bins, num_parts, k + 1),
{
    let n = num_freq_bins;
    let p = num_parts;
    let x = b - 1;
    lemma_lin_part_bound(b, n, p);
    let l = lin_part(b, n, p);
    assert(l == x * p / n);
    vstd::arithmetic::div_mod::lemma_fundamental_div_mod(x * p, n);
    vstd::arithmetic::div_mod::lemma_mod_bound(x * p, n);
    // x * p / n == k exactly when k * n <= x * p < (k + 1) * n
    if l == k {
        assert(k * n <= x * p && x * p < (k + 1) * n) by (nonlinear_arith)
            requires
                x * p == n * l + (x * p) % n,
                0 <= (x * p) % n < n,
                l == k,
        ;
    }
    assert((k + 1) * n == k * n + n) by (nonlinear_arith);
    if k * n <= x * p && x * p < (k + 1) * n {
        vstd::arithmetic::div_mod::lemma_fundamental_div_mod_converse(
            x * p,
            n,
            k,
            x * p - k * n,
        );
        assert(n * k == k * n) by (nonlinear_arith);
    }
    lemma_ceil_div_le(k * n, x, p);
    lemma_ceil_div_le((k + 1) * n, x, p);
    assert(x * p == p * x) by (nonlinear_arith);
    assert(lin_assignment(n, p, false)[b] == l as usize);
}

/// Under the linear distribution the shares cover all frequency bins in
/// order, part 0 starting at bin 1 and the last part ending at bin
/// `num_freq_bins`, and every share holds `num_freq_bins / num_parts` bins
/// or one more: the parts receive equal numbers of bins.
pub proof fn lemma_lin_share_sizes(num_freq_bins: int, num_parts: int, k: int)
    requires
        num_freq_bins >= 1,
        num_parts >= 1,
        0 <= k < num_parts,
    ensures
        lin_share_start(num_freq_bins, num_parts, 0) == 1,
        lin_share_start(num_freq_bins, num_parts, num_parts) == num_freq_bins + 1,
        lin_share_start(num_freq_bins, num_parts, k + 1) - lin_share_start(num_freq_bins, num_parts, k)
            == num_freq_bins / num_parts || lin_share_start(num_freq_bins, num_parts, k + 1)
            - lin_share_start(num_freq_bins, num_parts, k) == num_freq_bins / num_parts + 1,
{
    let n = num_freq_bins;
    let p = num_parts;
    vstd::arithmetic::div_mod::lemma_fundamental_div_mod_converse(p - 1, p, 0, p - 1);
    assert(0 * n == 0);
    assert(p * n + p - 1 == n * p + (p - 1)) by (nonlinear_arith);
    vstd::arithmetic::div_mod::lemma_fundamental_div_mod_converse(p * n + p - 1, p, n, p - 1);
    assert((k + 1) * n + p - 1 == (k * n + p - 1) + n) by (nonlinear_arith);
    lemma_div_of_sum(k * n + p - 1, n, p);
}

/// Grouping puts every bin in one of the parts, keeps DC where the base put
/// it, and keeps a mirrored (complex) layout mirrored.
pub proof fn lemma_grouped_in_range(base: Seq<usize>, num_parts: int, i: int, j: int)
    requires
        1 <= num_parts <= usize::MAX,
        base.len() >= 1,
        base[0] < num_parts,
        0 <= i < base.len(),
        0 <= j < base.len(),
    ensures
        grouped_assignment(base, num_parts)[i] < num_parts,
        grouped_assignment(base, num_parts)[0] == base[0],
        base[i] == base[j] ==> grouped_assignment(base, num_parts)[i] == grouped_assignment(
            base,
            num_parts,
        )[j],
{
    vstd::arithmetic::div_mod::lemma_small_mod(base[0] as nat, num_parts as nat);
}

/// The parts of a split share the spectrum out: every bin is kept by the
/// one part it is assigned to, and every other part holds `zero` there.
pub proof fn lemma_split_parts_partition<B>(
    d: Seq<Seq<B>>,
    assignment: Seq<usize>,
    zero: B,
    c: int,
    b: int,
    part: usize,
)
    requires
        0 <= c < d.len(),
        0 <= b < d[c].len(),
    ensures
        split_part(d, assignment, part, zero)[c][b] == if part == assignment[b] {
            d[c][b]
        } else {
            zero
        },
{
}

/// Under the linear distribution the parts cover the whole spectrum: every
/// bin of every channel is kept by exactly one of the `num_parts` parts, and
/// is `zero` in all the others.
pub proof fn lemma_lin_split_covers_spectrum<B>(
    d: Seq<Seq<B>>,
    num_freq_bins: int,
    num_parts: int,
    zero: B,
    c: int,
    b: int,
)
    requires
        num_freq_bins >= 1,
        1 <= num_parts <= usize::MAX,
        0 <= c < d.len(),
        d[c].len() == num_freq_bins + 1,
        0 <= b <= num_freq_bins,
    ensures
        ({
            let a = lin_assignment(num_freq_bins, num_parts, false);
            &&& a[b] < num_parts
            &&& split_part(d, a, a[b], zero)[c][b] == d[c][b]
            &&& forall|k: usize| k != a[b] ==> #[trigger] split_part(d, a, k, zero)[c][b] == zero
        }),
{
    lemma_lin_assignment_in_range(num_freq_bins, num_parts, false, b);
}

/// The sum by `plus` of bin `b` of channel `c` over parts `0 .. k` of a split.
pub open spec fn parts_sum<B>(
    d: Seq<Seq<B>>,
    assignment: Seq<usize>,
    zero: B,
    plus: spec_fn(B, B) -> B,
    k: nat,
    c: int,
    b: int,
) -> B
    decreases k,
{
    if k == 0 {
        zero
    } else {
        plus(
            parts_sum(d, assignment, zero, plus, (k - 1) as nat, c, b),
            split_part(d, assignment, (k - 1) as usize, zero)[c][b],
        )
    }
}

proof fn lemma_parts_sum_prefix<B>(
    d: Seq<Seq<B>>,
    assignment: Seq<usize>,
    zero: B,
    plus: spec_fn(B, B) -> B,
    k: nat,
    c: int,
    b: int,
)
    requires
        k <= usize::MAX + 1,
        0 <= c < d.len(),
        0 <= b < d[c].len(),
        forall|x: B| #[trigger] plus(zero, x) == x,
        forall|x: B| #[trigger] plus(x, zero) == x,
    ensures
        parts_sum(d, assignment, zero, plus, k, c, b) == if k <= assignment[b] {
            zero
        } else {
            d[c][b]
        },
    decreases k,
{
    if k > 0 {
        lemma_parts_sum_prefix(d, assignment, zero, plus, (k - 1) as nat, c, b);
        let kept = split_part(d, assignment, (k - 1) as usize, zero)[c][b];
        assert(kept == if assignment[b] == (k - 1) as usize {
            d[c][b]
        } else {
            zero
        });
        let before = parts_sum(d, assignment, zero, plus, (k - 1) as nat, c, b);
        assert(parts_sum(d, assignment, zero, plus, k, c, b) == plus(before, kept));
        assert(plus(zero, kept) == kept);
        assert(plus(before, zero) == before);
    }
}

/// The parts of a split plus back up to the spectrum: for any addition with
/// `zero` as its neutral element, summing bin `b` of channel `c` over all
/// `num_parts` parts gives the bin's value, when the bin is assigned to one
/// of the parts.
pub proof fn lemma_split_parts_sum<B>(
    d: Seq<Seq<B>>,
    assignment: Seq<usize>,
    zero: B,
    plus: spec_fn(B, B) -> B,
    num_parts: nat,
    c: int,
    b: int,
)
    requires
        num_parts <= usize::MAX,
        0 <= c < d.len(),
        0 <= b < d[c].len(),
        assignment[b] < num_parts,
        forall|x: B| #[trigger] plus(zero, x) == x,
        forall|x: B| #[trigger] plus(x, zero) == x,
    ensures
        parts_sum(d, assignment, zero, plus, num_parts, c, b) == d[c][b],
{
    lemma_parts_sum_prefix(d, assignment, zero, plus, num_parts, c, b);
}

/// Resetting a split gives back the spectrum from before the split: a
/// prepared part keeps the full spectrum aside, and the reset restores it.
pub proof fn lemma_reset_split_undoes_prepare<S: Copy, B: Copy>(
    before: AudioProcessor<S, B>,
    prepared: AudioProcessor<S, B>,
    reset: AudioProcessor<S, B>,
)
    requires
        before.spectrum_view() is Some,
        prepared.stash_view() == before.spectrum_view(),
        reset.spectrum_view() == if prepared.stash_view() is Some {
            prepared.stash_view()
        } else {
            prepared.spectrum_view()
        },
    ensures
        reset.spectrum_view() == before.spectrum_view(),
{
}

} // verus!
