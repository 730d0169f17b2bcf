//! Random bin swapping, within a channel or between channels.

use rand::rngs::ThreadRng;
use rand::Rng;
use vstd::prelude::*;

use crate::error::AudioError;
use crate::processor::{grid, is_rectangular, same_shape, set_entry, AudioProcessor};

verus! {

#[verifier::external_type_specification]
#[verifier::external_body]
pub struct ExThreadRng(ThreadRng);

/// A handle to the thread-local random number generator, from `rand::rng`.
/// Nothing is stated of it: what it yields is left to chance.
#[verifier::external_body]
fn thread_rng() -> ThreadRng {
    rand::rng()
}

/// A number drawn from `low ..= high` by `Rng::random_range`, which asserts
/// that the range is not empty; the contract states only that the number lies
/// in the range.
#[verifier::external_body]
fn random_in(rng: &mut ThreadRng, low: usize, high: usize) -> (r: usize)
    requires
        low <= high,
    ensures
        low <= r <= high,
{
    rng.random_range(low..=high)
}

/// Exchanging two entries keeps the multiset of a sequence.
pub proof fn lemma_swap_keeps_multiset<T>(s: Seq<T>, i: int, j: int)
    requires
        0 <= i < s.len(),
        0 <= j < s.len(),
    ensures
        s.update(i, s[j]).update(j, s[i]).to_multiset() == s.to_multiset(),
{
    broadcast use vstd::seq_lib::to_multiset_update;
    broadcast use vstd::seq_lib::group_to_multiset_ensures;
    broadcast use vstd::multiset::group_multiset_axioms;

    if i == j {
        assert(s.update(i, s[j]).update(j, s[i]) =~= s);
    } else {
        let m = s.to_multiset();
        let s1 = s.update(i, s[j]);
        assert(s1[j] == s[j]);
        assert(s1.to_multiset() == m.insert(s[j]).remove(s[i]));
        assert(s1.update(j, s[i]).to_multiset() == s1.to_multiset().insert(s[i]).remove(s[j]));
        assert(s.contains(s[i]));
        assert(s.contains(s[j]));
        assert(m.count(s[i]) > 0);
        assert(m.count(s[j]) > 0);
        assert(m.insert(s[j]).remove(s[i]).insert(s[i]).remove(s[j]) =~= m);
    }
}

/// The entries of bin `b` across the channels of `d`.
pub open spec fn column<T>(d: Seq<Seq<T>>, b: int) -> Seq<T> {
    Seq::new(d.len(), |c: int| d[c][b])
}

/// Bin `bin1 + offset`, wrapped around the range `first ..= last`: a bin
/// below the range comes back in from its top, a bin above it from its bottom.
pub open spec fn wrapped_partner(bin1: int, offset: int, first: int, last: int) -> int {
    let b = bin1 + offset;
    if b < first {
        last - (first - b) + 1
    } else if b > last {
        first + (b - last) - 1
    } else {
        b
    }
}

/// The bin that `bin1` is exchanged with for a random `offset`: bin
/// `bin1 + offset` wrapped around `first_bin ..= last_bin`, when it lands in
/// that range and differs from `bin1`; otherwise no exchange is made.
pub fn swap_partner(bin1: usize, offset: i64, first_bin: usize, last_bin: usize) -> (r: Option<
    usize,
>)
    ensures
        ({
            let w = wrapped_partner(bin1 as int, offset as int, first_bin as int, last_bin as int);
            r == if first_bin <= w <= last_bin && w != bin1 {
                Some(w as usize)
            } else {
                None::<usize>
            }
        }),
{
    let first = first_bin as i128;
    let last = last_bin as i128;
    let bin2_wide = bin1 as i128 + offset as i128;
    let bin2: i128 = if bin2_wide < first {
        // Wrap around to the high end
        last - (first - bin2_wide) + 1
    } else if bin2_wide > last {
        // Wrap around to the low end
        first + (bin2_wide - last) - 1
    } else {
        bin2_wide
    };
    if first <= bin2 && bin2 <= last && bin1 as i128 != bin2 {
        Some(bin2 as usize)
    } else {
        None
    }
}

/// How far the second bin of an exchange may lie from the first for a
/// maximum swap distance of `max_distance`: half of it either way, and at
/// least one bin, so that a distance of one exchanges neighbours.
pub open spec fn swap_reach(max_distance: int) -> int {
    if max_distance / 2 == 0 {
        1
    } else {
        max_distance / 2
    }
}

/// The reach of an exchange is half the maximum distance, rounded down, and
/// one bin when that half is zero: for a distance of at least two, twice the
/// reach never exceeds the distance and is the largest multiple of two that
/// does not; a distance of one or zero gives neighbours.
pub proof fn lemma_swap_reach_is_half(max_distance: int)
    requires
        max_distance >= 0,
    ensures
        swap_reach(max_distance) >= 1,
        max_distance >= 2 ==> 2 * swap_reach(max_distance) <= max_distance < 2 * swap_reach(
            max_distance,
        ) + 2,
        max_distance <= 1 ==> swap_reach(max_distance) == 1,
{
}

/// Every exchange that the random swap may draw pairs its first bin with a
/// bin at most half the maximum distance away before wrapping (a neighbour
/// when the distance is below two), and never with the bin itself.
pub proof fn lemma_swap_draw_within_half_distance(
    draw: (usize, i64),
    first: int,
    last: int,
    max_distance: int,
)
    requires
        max_distance >= 1,
        valid_bin_draw(draw, first, last, swap_reach(max_distance)),
    ensures
        draw.1 != 0,
        max_distance >= 2 ==> 2 * draw.1 <= max_distance && -max_distance <= 2 * draw.1,
        max_distance < 2 ==> draw.1 == 1 || draw.1 == -1,
        first <= draw.0 <= last,
{
}

/// A draw `(bin1, offset)` for an exchange within `first ..= last`: a first bin
/// in the range and an offset of at most `reach` bins either way, never zero.
pub open spec fn valid_bin_draw(draw: (usize, i64), first: int, last: int, reach: int) -> bool {
    &&& first <= draw.0 <= last
    &&& draw.1 != 0
    &&& -reach <= draw.1 <= reach
}

/// `s` after the exchange that draw `(bin1, offset)` asks for within
/// `first ..= last`: bin `bin1` and its wrapped partner trade places, when
/// both lie in the range and differ; otherwise `s` is left as it is.
pub open spec fn swapped_once<B>(s: Seq<B>, draw: (usize, i64), first: int, last: int) -> Seq<B> {
    let bin1 = draw.0 as int;
    let w = wrapped_partner(bin1, draw.1 as int, first, last);
    if 0 <= first <= bin1 <= last < s.len() && first <= w <= last && w != bin1 {
        s.update(bin1, s[w]).update(w, s[bin1])
    } else {
        s
    }
}

/// `s` after the exchanges of `draws`, one after the other.
pub open spec fn swaps_applied<B>(s: Seq<B>, draws: Seq<(usize, i64)>, first: int, last: int) -> Seq<
    B,
>
    decreases draws.len(),
{
    if draws.len() == 0 {
        s
    } else {
        swapped_once(swaps_applied(s, draws.drop_last(), first, last), draws.last(), first, last)
    }
}

/// Every channel of `d` after its own draws, exchanged between the first bin
/// after DC and the last bin before Nyquist; channels without draws stay.
pub open spec fn bin_swapped<B>(d: Seq<Seq<B>>, draws: Seq<Seq<(usize, i64)>>) -> Seq<Seq<B>> {
    Seq::new(
        d.len(),
        |c: int|
            if c < draws.len() {
                swaps_applied(d[c], draws[c], 1, d[c].len() - 2)
            } else {
                d[c]
            },
    )
}

/// A draw `(bin, channel1, channel2)` for an exchange between channels: a bin
/// between DC and Nyquist, and two different channels.
pub open spec fn valid_channel_draw(draw: (usize, usize, usize), num_bins: int, num_channels: int) -> bool {
    &&& 1 <= draw.0 <= num_bins - 2
    &&& draw.1 < num_channels
    &&& draw.2 < num_channels
    &&& draw.1 != draw.2
}

/// `d` after bin `b` trades places between channels `c1` and `c2`, when both
/// channels exist, differ and hold the bin; otherwise `d` is left as it is.
pub open spec fn channels_swapped_once<B>(d: Seq<Seq<B>>, draw: (usize, usize, usize)) -> Seq<Seq<B>> {
    let b = draw.0 as int;
    let c1 = draw.1 as int;
    let c2 = draw.2 as int;
    if c1 != c2 && c1 < d.len() && c2 < d.len() && b < d[c1].len() && b < d[c2].len() {
        d.update(c1, d[c1].update(b, d[c2][b])).update(c2, d[c2].update(b, d[c1][b]))
    } else {
        d
    }
}

/// `d` after the exchanges of `draws` between channels, one after the other.
pub open spec fn channel_swaps_applied<B>(d: Seq<Seq<B>>, draws: Seq<(usize, usize, usize)>) -> Seq<
    Seq<B>,
>
    decreases draws.len(),
{
    if draws.len() == 0 {
        d
    } else {
        channels_swapped_once(channel_swaps_applied(d, draws.drop_last()), draws.last())
    }
}

/// Exchanges within a channel keep its bins, only reordered, and never move
/// the bins outside `first ..= last`.
pub proof fn lemma_swaps_keep_bins<B>(s: Seq<B>, draws: Seq<(usize, i64)>, first: int, last: int)
    ensures
        swaps_applied(s, draws, first, last).len() == s.len(),
        swaps_applied(s, draws, first, last).to_multiset() == s.to_multiset(),
        forall|x: int|
            0 <= x < s.len() && !(first <= x <= last) ==> #[trigger] swaps_applied(
                s,
                draws,
                first,
                last,
            )[x] == s[x],
    decreases draws.len(),
{
    if draws.len() > 0 {
        let p = swaps_applied(s, draws.drop_last(), first, last);
        lemma_swaps_keep_bins(s, draws.drop_last(), first, last);
        let draw = draws.last();
        let bin1 = draw.0 as int;
        let w = wrapped_partner(bin1, draw.1 as int, first, last);
        if 0 <= first <= bin1 <= last < p.len() && first <= w <= last && w != bin1 {
            lemma_swap_keeps_multiset(p, bin1, w);
        }
    }
}

/// Exchanges between channels keep every bin's values across the channels,
/// only spread otherwise, and the shape of the spectrum; bins that no draw
/// names stay in every channel.
pub proof fn lemma_channel_swaps_keep_columns<B>(d: Seq<Seq<B>>, draws: Seq<(usize, usize, usize)>)
    requires
        is_rectangular(d),
    ensures
        channel_swaps_applied(d, draws).len() == d.len(),
        forall|c: int|
            0 <= c < d.len() ==> (#[trigger] channel_swaps_applied(d, draws)[c]).len() == d[c].len(),
        forall|b: int|
            0 <= b < d[0].len() ==> #[trigger] column(channel_swaps_applied(d, draws), b).to_multiset()
                == column(d, b).to_multiset(),
        forall|c: int, b: int|
            0 <= c < d.len() && 0 <= b < d[c].len() && (forall|k: int|
                0 <= k < draws.len() ==> #[trigger] draws[k].0 != b) ==> #[trigger] channel_swaps_applied(
                d,
                draws,
            )[c][b] == d[c][b],
    decreases draws.len(),
{
    if draws.len() > 0 {
        let p = channel_swaps_applied(d, draws.drop_last());
        lemma_channel_swaps_keep_columns(d, draws.drop_last());
        let draw = draws.last();
        let e = channel_swaps_applied(d, draws);
        assert(e == channels_swapped_once(p, draw));
        let bb = draw.0 as int;
        let c1 = draw.1 as int;
        let c2 = draw.2 as int;
        if c1 != c2 && c1 < p.len() && c2 < p.len() && bb < p[c1].len() && bb < p[c2].len() {
            assert forall|b: int| 0 <= b < d[0].len() implies #[trigger] column(e, b).to_multiset()
                == column(d, b).to_multiset() by {
                if b == bb {
                    let col = column(p, b);
                    lemma_swap_keeps_multiset(col, c1, c2);
                    assert(column(e, b) =~= col.update(c1, col[c2]).update(c2, col[c1]));
                } else {
                    assert(column(e, b) =~= column(p, b));
                }
            }
        } else {
            assert(e == p);
        }
        assert forall|c: int, b: int|
            0 <= c < d.len() && 0 <= b < d[c].len() && (forall|k: int|
                0 <= k < draws.len() ==> #[trigger] draws[k].0 != b) implies #[trigger] e[c][b]
            == d[c][b] by {
            assert(draws[draws.len() - 1].0 != b);
            assert forall|k: int| 0 <= k < draws.drop_last().len() implies #[trigger] draws.drop_last()[k].0
                != b by {
                assert(draws.drop_last()[k] == draws[k]);
            }
        }
    }
}

/// Exchange the bins that `draw` names within channel `c` of `data`, between
/// the first bin after DC and the last bin before Nyquist.
fn swap_within<B: Copy>(data: &mut Vec<Vec<B>>, c: usize, draw: (usize, i64))
    requires
        c < old(data)@.len(),
        old(data)@[c as int]@.len() >= 2,
    ensures
        grid(*final(data)) == grid(*old(data)).update(
            c as int,
            swapped_once(
                grid(*old(data))[c as int],
                draw,
                1,
                grid(*old(data))[c as int].len() - 2,
            ),
        ),
{
    let ghost before = grid(*data);
    assert(before[c as int] == data@[c as int]@);
    let n = data[c].len();
    let last = n - 2;
    let bin1 = draw.0;
    if 1 <= bin1 && bin1 <= last {
        if let Some(bin2) = swap_partner(bin1, draw.1, 1, last) {
            let x = data[c][bin1];
            let y = data[c][bin2];
            set_entry(data, c, bin1, y);
            set_entry(data, c, bin2, x);
            assert(grid(*data) =~= before.update(
                c as int,
                swapped_once(before[c as int], draw, 1, before[c as int].len() - 2),
            ));
            return;
        }
    }
    assert(grid(*data) =~= before.update(
        c as int,
        swapped_once(before[c as int], draw, 1, before[c as int].len() - 2),
    ));
}

/// Exchange the bin that `draw` names between its two channels.
fn swap_between<B: Copy>(data: &mut Vec<Vec<B>>, draw: (usize, usize, usize))
    ensures
        grid(*final(data)) == channels_swapped_once(grid(*old(data)), draw),
{
    let ghost before = grid(*data);
    let (b, c1, c2) = draw;
    if c1 != c2 && c1 < data.len() && c2 < data.len() && b < data[c1].len() && b < data[c2].len() {
        assert(before[c1 as int] == data@[c1 as int]@);
        assert(before[c2 as int] == data@[c2 as int]@);
        let x = data[c1][b];
        let y = data[c2][b];
        set_entry(data, c1, b, y);
        set_entry(data, c2, b, x);
        assert(grid(*data) =~= channels_swapped_once(before, draw));
    } else {
        if c1 < data.len() {
            assert(before[c1 as int] == data@[c1 as int]@);
        }
        if c2 < data.len() {
            assert(before[c2 as int] == data@[c2 as int]@);
        }
        assert(grid(*data) =~= channels_swapped_once(before, draw));
    }
}

/// A swapped spectrum keeps its shape.
proof fn lemma_bin_swapped_shape<B>(d: Seq<Seq<B>>, draws: Seq<Seq<(usize, i64)>>)
    requires
        is_rectangular(d),
    ensures
        is_rectangular(bin_swapped(d, draws)),
        same_shape(bin_swapped(d, draws), d),
{
    let e = bin_swapped(d, draws);
    assert forall|c: int| 0 <= c < d.len() implies #[trigger] e[c].len() == d[c].len() by {
        if c < draws.len() {
            lemma_swaps_keep_bins(d[c], draws[c], 1, d[c].len() - 2);
        }
    }
    assert(e[0].len() == d[0].len());
}

impl<S: Copy, B: Copy> AudioProcessor<S, B> {
    /// Exchange bins within the channels as `draws` say: channel `c` takes
    /// the exchanges `draws[c]` in order, each `(bin1, offset)` trading bin
    /// `bin1` with bin `bin1 + offset` wrapped around the range between DC
    /// and Nyquist (see `swap_partner`), when both lie in that range and
    /// differ; channels without draws stay. A spectrum of three bins or fewer
    /// has nothing to exchange.
    pub fn apply_bin_swaps(&mut self, draws: &Vec<Vec<(usize, i64)>>) -> (r: Result<(), AudioError>)
        requires
            old(self).wf(),
        ensures
            final(self).wf(),
            old(self).spectrum_view() is None ==> r == Err::<(), AudioError>(AudioError::NoFftData),
            old(self).spectrum_view() is Some ==> {
                let d = old(self).spectrum_view().unwrap();
                &&& d[0].len() <= 3 ==> r == Err::<(), AudioError>(AudioError::NotEnoughBins)
                &&& d[0].len() > 3 ==> r is Ok && final(self).spectrum_view() == Some(
                    bin_swapped(d, grid(*draws)),
                )
            },
            r is Err ==> *final(self) == *old(self),
            r is Ok ==> {
                &&& final(self).time_view() == old(self).time_view()
                &&& final(self).stash_view() == old(self).stash_view()
                &&& final(self).sample_rate() == old(self).sample_rate()
                &&& final(self).channels() == old(self).channels()
                &&& final(self).fft_size() == old(self).fft_size()
                &&& final(self).spec_max_amplitude() == old(self).spec_max_amplitude()
            },
    {
        proof {
            self.lemma_views();
        }
        if self.fft_data.is_none() {
            return Err(AudioError::NoFftData);
        }
        let ghost gd = grid(*draws);
        let ghost d = grid(self.fft_data.unwrap());
        let ghost e = bin_swapped(d, gd);
        assert(d[0] == self.fft_data.unwrap()@[0]@);
        let num_bins = self.fft_data.as_ref().unwrap()[0].len();
        if num_bins <= 3 {
            return Err(AudioError::NotEnoughBins);
        }
        let mut data = self.fft_data.take().unwrap();
        let num_channels = data.len();
        let mut c: usize = 0;
        while c < num_channels
            invariant
                is_rectangular(d),
                num_channels == d.len(),
                num_bins == d[0].len(),
                num_bins > 3,
                gd == grid(*draws),
                e == bin_swapped(d, gd),
                c <= num_channels,
                grid(data).len() == d.len(),
                forall|k: int| 0 <= k < d.len() ==> #[trigger] grid(data)[k] == if k < c { e[k] } else { d[k] },
            decreases num_channels - c,
        {
            if c < draws.len() {
                let channel_draws = &draws[c];
                assert(channel_draws@ == gd[c as int]);
                let mut i: usize = 0;
                while i < channel_draws.len()
                    invariant
                        is_rectangular(d),
                        num_channels == d.len(),
                        num_bins == d[0].len(),
                        num_bins > 3,
                        e == bin_swapped(d, gd),
                        c < num_channels,
                        c < gd.len(),
                        channel_draws@ == gd[c as int],
                        i <= channel_draws@.len(),
                        grid(data).len() == d.len(),
                        forall|k: int|
                            0 <= k < d.len() && k != c ==> #[trigger] grid(data)[k] == if k < c {
                                e[k]
                            } else {
                                d[k]
                            },
                        grid(data)[c as int] == swaps_applied(
                            d[c as int],
                            channel_draws@.take(i as int),
                            1,
                            d[c as int].len() - 2,
                        ),
                    decreases channel_draws@.len() - i,
                {
                    proof {
                        lemma_swaps_keep_bins(
                            d[c as int],
                            channel_draws@.take(i as int),
                            1,
                            d[c as int].len() - 2,
                        );
                        assert(grid(data)[c as int] == data@[c as int]@);
                    }
                    let ghost before = grid(data);
                    swap_within(&mut data, c, channel_draws[i]);
                    proof {
                        let t = channel_draws@.take(i as int + 1);
                        assert(t.drop_last() =~= channel_draws@.take(i as int));
                        assert(t.last() == channel_draws@[i as int]);
                        assert forall|k: int| 0 <= k < d.len() && k != c implies #[trigger] grid(data)[k]
                            == before[k] by {}
                    }
                    i = i + 1;
                }
                proof {
                    assert(channel_draws@.take(i as int) =~= channel_draws@);
                }
            } else {
                assert(e[c as int] == d[c as int]);
            }
            c = c + 1;
        }
        proof {
            assert(grid(data) =~= e);
            lemma_bin_swapped_shape(d, gd);
        }
        self.fft_data = Some(data);
        proof {
            self.lemma_views();
        }
        Ok(())
    }
    /// Exchange bins between channels as `draws` say, in order: each
    /// `(bin, channel1, channel2)` trades bin `bin` between the two channels,
    /// when they differ and hold the bin. Fewer than two channels have nothing
    /// to exchange.
    pub fn apply_channel_swaps(&mut self, draws: &Vec<(usize, usize, usize)>) -> (r: Result<
        (),
        AudioError,
    >)
        requires
            old(self).wf(),
        ensures
            final(self).wf(),
            old(self).spectrum_view() is None ==> r == Err::<(), AudioError>(AudioError::NoFftData),
            old(self).spectrum_view() is Some ==> {
                let d = old(self).spectrum_view().unwrap();
                &&& d.len() < 2 ==> r == Err::<(), AudioError>(AudioError::NotEnoughChannels)
                &&& d.len() >= 2 ==> r is Ok && final(self).spectrum_view() == Some(
                    channel_swaps_applied(d, draws@),
                )
            },
            r is Err ==> *final(self) == *old(self),
            r is Ok ==> {
                &&& final(self).time_view() == old(self).time_view()
                &&& final(self).stash_view() == old(self).stash_view()
                &&& final(self).sample_rate() == old(self).sample_rate()
                &&& final(self).channels() == old(self).channels()
                &&& final(self).fft_size() == old(self).fft_size()
                &&& final(self).spec_max_amplitude() == old(self).spec_max_amplitude()
            },
    {
        proof {
            self.lemma_views();
        }
        if self.fft_data.is_none() {
            return Err(AudioError::NoFftData);
        }
        if self.fft_data.as_ref().unwrap().len() < 2 {
            return Err(AudioError::NotEnoughChannels);
        }
        let mut data = self.fft_data.take().unwrap();
        let ghost d = grid(data);
        let mut i: usize = 0;
        while i < draws.len()
            invariant
                is_rectangular(d),
                i <= draws@.len(),
                grid(data) == channel_swaps_applied(d, draws@.take(i as int)),
            decreases draws.len() - i,
        {
            swap_between(&mut data, draws[i]);
            proof {
                let t = draws@.take(i as int + 1);
                assert(t.drop_last() =~= draws@.take(i as int));
                assert(t.last() == draws@[i as int]);
            }
            i = i + 1;
        }
        proof {
            assert(draws@.take(i as int) =~= draws@);
            lemma_channel_swaps_keep_columns(d, draws@);
            let e = grid(data);
            assert(e[0].len() == d[0].len());
            assert forall|c: int| 0 <= c < e.len() implies #[trigger] e[c].len() == e[0].len() by {
                assert(e[c].len() == d[c].len());
            }
        }
        self.fft_data = Some(data);
        proof {
            self.lemma_views();
        }
        Ok(())
    }

    /// Swap random frequency bins within each channel.
    ///
    /// `repeat_count` exchanges are made per channel. Each draws a first bin
    /// between DC and Nyquist and an offset of at most `max_distance / 2`
    /// bins either way (at least one, so that a distance of one exchanges
    /// neighbours), never zero, and trades the first bin with the one at that
    /// offset, wrapped around the range (see `apply_bin_swaps`). DC and
    /// Nyquist are never moved, and every channel keeps its bins, only in
    /// another order. A spectrum of three bins or fewer has nothing to swap,
    /// and a distance of zero bins allows no exchange.
    pub fn swap_bins_counted(&mut self, max_distance: usize, repeat_count: usize) -> (r: Result<
        (),
        AudioError,
    >)
        requires
            old(self).wf(),
        ensures
            final(self).wf(),
            old(self).spectrum_view() is None ==> r == Err::<(), AudioError>(AudioError::NoFftData),
            old(self).spectrum_view() is Some ==> {
                let d = old(self).spectrum_view().unwrap();
                &&& d[0].len() <= 3 ==> r == Err::<(), AudioError>(AudioError::NotEnoughBins)
                &&& d[0].len() > 3 && max_distance == 0 ==> r == Err::<(), AudioError>(
                    AudioError::BlockSizeTooSmall,
                )
                &&& d[0].len() > 3 && max_distance > 0 ==> r is Ok
            },
            r is Err ==> *final(self) == *old(self),
            r is Ok ==> {
                let d = old(self).spectrum_view().unwrap();
                let e = final(self).spectrum_view().unwrap();
                &&& final(self).spectrum_view() is Some
                &&& exists|draws: Seq<Seq<(usize, i64)>>|
                    {
                        &&& draws.len() == d.len()
                        &&& forall|c: int|
                            0 <= c < d.len() ==> (#[trigger] draws[c]).len() == repeat_count
                        &&& forall|c: int, k: int|
                            0 <= c < d.len() && 0 <= k < repeat_count ==> valid_bin_draw(
                                #[trigger] draws[c][k],
                                1,
                                d[0].len() - 2,
                                swap_reach(max_distance as int),
                            )
                        &&& e == bin_swapped(d, draws)
                    }
                &&& e.len() == d.len()
                &&& forall|c: int|
                    0 <= c < d.len() ==> {
                        &&& (#[trigger] e[c]).len() == d[c].len()
                        &&& e[c].to_multiset() == d[c].to_multiset()
                        &&& e[c][0] == d[c][0]
                        &&& e[c][d[c].len() - 1] == d[c][d[c].len() - 1]
                    }
                &&& final(self).time_view() == old(self).time_view()
                &&& final(self).stash_view() == old(self).stash_view()
                &&& final(self).sample_rate() == old(self).sample_rate()
                &&& final(self).channels() == old(self).channels()
                &&& final(self).fft_size() == old(self).fft_size()
                &&& final(self).spec_max_amplitude() == old(self).spec_max_amplitude()
            },
    {
        proof {
            self.lemma_views();
        }
        if self.fft_data.is_none() {
            return Err(AudioError::NoFftData);
        }
        let ghost d = grid(self.fft_data.unwrap());
        assert(d[0] == self.fft_data.unwrap()@[0]@);
        let num_bins = self.fft_data.as_ref().unwrap()[0].len();
        // DC and Nyquist stay where they are.
        if num_bins <= 3 {
            return Err(AudioError::NotEnoughBins);
        }
        if max_distance == 0 {
            return Err(AudioError::BlockSizeTooSmall);
        }
        let mut data = self.fft_data.take().unwrap();
        let last_bin = num_bins - 2;
        let reach: usize = if max_distance / 2 == 0 {
            1
        } else {
            max_distance / 2
        };
        let ghost reach_spec = swap_reach(max_distance as int);
        assert(reach == reach_spec);
        let mut rng = thread_rng();
        let num_channels = data.len();
        let ghost mut all: Seq<Seq<(usize, i64)>> = Seq::empty();
        let mut channel_idx: usize = 0;
        while channel_idx < num_channels
            invariant
                is_rectangular(d),
                num_channels == d.len(),
                num_bins == d[0].len(),
                num_bins > 3,
                last_bin == num_bins - 2,
                1 <= reach <= usize::MAX / 2,
                reach == reach_spec,
                channel_idx <= num_channels,
                all.len() == channel_idx,
                forall|c: int| 0 <= c < channel_idx ==> (#[trigger] all[c]).len() == repeat_count,
                forall|c: int, k: int|
                    0 <= c < channel_idx && 0 <= k < repeat_count ==> valid_bin_draw(
                        #[trigger] all[c][k],
                        1,
                        num_bins - 2,
                        reach_spec,
                    ),
                grid(data).len() == d.len(),
                forall|c: int|
                    0 <= c < d.len() ==> #[trigger] grid(data)[c] == if c < channel_idx {
                        swaps_applied(d[c], all[c], 1, d[c].len() - 2)
                    } else {
                        d[c]
                    },
            decreases num_channels - channel_idx,
        {
            let ghost mut cur: Seq<(usize, i64)> = Seq::empty();
            let mut count: usize = 0;
            while count < repeat_count
                invariant
                    is_rectangular(d),
                    num_channels == d.len(),
                    num_bins == d[0].len(),
                    num_bins > 3,
                    last_bin == num_bins - 2,
                    1 <= reach <= usize::MAX / 2,
                    reach == reach_spec,
                    channel_idx < num_channels,
                    all.len() == channel_idx,
                    count <= repeat_count,
                    cur.len() == count,
                    forall|k: int| 0 <= k < count ==> valid_bin_draw(
                        #[trigger] cur[k],
                        1,
                        num_bins - 2,
                        reach_spec,
                    ),
                    grid(data).len() == d.len(),
                    forall|c: int|
                        0 <= c < d.len() && c != channel_idx ==> #[trigger] grid(data)[c] == if c
                            < channel_idx {
                            swaps_applied(d[c], all[c], 1, d[c].len() - 2)
                        } else {
                            d[c]
                        },
                    grid(data)[channel_idx as int] == swaps_applied(
                        d[channel_idx as int],
                        cur,
                        1,
                        d[channel_idx as int].len() - 2,
                    ),
                decreases repeat_count - count,
            {
                // Choose a random bin within the valid range
                let bin1 = random_in(&mut rng, 1, last_bin);
                // A random offset of at most `reach` bins either way, never 0
                let draw = random_in(&mut rng, 0, 2 * reach - 1);
                let r_wide = reach as i128;
                let offset_wide: i128 = if (draw as i128) < r_wide {
                    draw as i128 - r_wide
                } else {
                    draw as i128 - r_wide + 1
                };
                assert(-0x7fff_ffff_ffff_ffff <= offset_wide <= 0x7fff_ffff_ffff_ffff);
                let offset = offset_wide as i64;
                let ghost before = grid(data);
                proof {
                    lemma_swaps_keep_bins(
                        d[channel_idx as int],
                        cur,
                        1,
                        d[channel_idx as int].len() - 2,
                    );
                    assert(before[channel_idx as int] == data@[channel_idx as int]@);
                }
                swap_within(&mut data, channel_idx, (bin1, offset));
                proof {
                    let next = cur.push((bin1, offset));
                    assert(next.drop_last() =~= cur);
                    assert forall|c: int| 0 <= c < d.len() && c != channel_idx implies #[trigger] grid(
                        data,
                    )[c] == before[c] by {}
                    cur = next;
                }
                count = count + 1;
            }
            proof {
                all = all.push(cur);
                assert forall|c: int| 0 <= c < d.len() implies #[trigger] grid(data)[c] == if c
                    < channel_idx + 1 {
                    swaps_applied(d[c], all[c], 1, d[c].len() - 2)
                } else {
                    d[c]
                } by {
                    if c < channel_idx {
                        assert(all[c] == all.drop_last()[c]);
                    }
                }
            }
            channel_idx = channel_idx + 1;
        }
        proof {
            let e = bin_swapped(d, all);
            assert(grid(data) =~= e);
            lemma_bin_swapped_shape(d, all);
            assert forall|c: int| 0 <= c < d.len() implies {
                &&& (#[trigger] e[c]).len() == d[c].len()
                &&& e[c].to_multiset() == d[c].to_multiset()
                &&& e[c][0] == d[c][0]
                &&& e[c][d[c].len() - 1] == d[c][d[c].len() - 1]
            } by {
                lemma_swaps_keep_bins(d[c], all[c], 1, d[c].len() - 2);
            }
        }
        self.fft_data = Some(data);
        proof {
            self.lemma_views();
        }
        Ok(())
    }

    /// Randomly swap bins between channels.
    ///
    /// `repeat_count` exchanges are made. Each draws a bin between DC and
    /// Nyquist and two different channels, and trades the bin between them
    /// (see `apply_channel_swaps`). Every bin keeps the same values across
    /// the channels, only spread otherwise; DC and Nyquist are never moved.
    /// Exchanges need two channels, and a bin between DC and Nyquist.
    pub fn swap_channels_counted(&mut self, repeat_count: usize) -> (r: Result<(), AudioError>)
        requires
            old(self).wf(),
        ensures
            final(self).wf(),
            old(self).spectrum_view() is None ==> r == Err::<(), AudioError>(AudioError::NoFftData),
            old(self).spectrum_view() is Some ==> {
                let d = old(self).spectrum_view().unwrap();
                &&& d.len() < 2 ==> r == Err::<(), AudioError>(AudioError::NotEnoughChannels)
                &&& d.len() >= 2 && repeat_count > 0 && d[0].len() < 3 ==> r == Err::<
                    (),
                    AudioError,
                >(AudioError::NotEnoughBins)
                &&& d.len() >= 2 && (repeat_count == 0 || d[0].len() >= 3) ==> r is Ok
            },
            r is Err ==> *final(self) == *old(self),
            r is Ok ==> {
                let d = old(self).spectrum_view().unwrap();
                let e = final(self).spectrum_view().unwrap();
                let n = d[0].len();
                &&& final(self).spectrum_view() is Some
                &&& exists|draws: Seq<(usize, usize, usize)>|
                    {
                        &&& draws.len() == repeat_count
                        &&& forall|k: int|
                            0 <= k < repeat_count ==> valid_channel_draw(
                                #[trigger] draws[k],
                                n as int,
                                d.len() as int,
                            )
                        &&& e == channel_swaps_applied(d, draws)
                    }
                &&& e.len() == d.len()
                &&& forall|c: int| 0 <= c < d.len() ==> (#[trigger] e[c]).len() == n
                &&& forall|b: int|
                    0 <= b < n ==> #[trigger] column(e, b).to_multiset() == column(d, b).to_multiset()
                &&& forall|c: int|
                    0 <= c < d.len() ==> (#[trigger] e[c])[0] == d[c][0] && e[c][n - 1] == d[c][n - 1]
                &&& final(self).time_view() == old(self).time_view()
                &&& final(self).stash_view() == old(self).stash_view()
                &&& final(self).sample_rate() == old(self).sample_rate()
                &&& final(self).channels() == old(self).channels()
                &&& final(self).fft_size() == old(self).fft_size()
                &&& final(self).spec_max_amplitude() == old(self).spec_max_amplitude()
            },
    {
        proof {
            self.lemma_views();
        }
        if self.fft_data.is_none() {
            return Err(AudioError::NoFftData);
        }
        let ghost d = grid(self.fft_data.unwrap());
        assert(d[0] == self.fft_data.unwrap()@[0]@);
        let num_channels = self.fft_data.as_ref().unwrap().len();
        if num_channels < 2 {
            return Err(AudioError::NotEnoughChannels);
        }
        let num_bins = self.fft_data.as_ref().unwrap()[0].len();
        if repeat_count > 0 && num_bins < 3 {
            return Err(AudioError::NotEnoughBins);
        }
        let mut data = self.fft_data.take().unwrap();
        let mut rng = thread_rng();
        let ghost mut draws: Seq<(usize, usize, usize)> = Seq::empty();
        let mut count: usize = 0;
        while count < repeat_count
            invariant
                is_rectangular(d),
                num_channels == d.len(),
                num_channels >= 2,
                num_bins == d[0].len(),
                repeat_count > 0 ==> num_bins >= 3,
                count <= repeat_count,
                draws.len() == count,
                forall|k: int|
                    0 <= k < count ==> valid_channel_draw(
                        #[trigger] draws[k],
                        num_bins as int,
                        num_channels as int,
                    ),
                grid(data) == channel_swaps_applied(d, draws),
            decreases repeat_count - count,
        {
            // Choose a random bin within the valid range (avoid DC and Nyquist)
            let bin = 1 + random_in(&mut rng, 0, num_bins - 3);
            // Choose two different channels
            let chan1 = random_in(&mut rng, 0, num_channels - 1);
            let second = random_in(&mut rng, 0, num_channels - 2);
            let chan2 = if second < chan1 {
                second
            } else {
                second + 1
            };
            swap_between(&mut data, (bin, chan1, chan2));
            proof {
                let next = draws.push((bin, chan1, chan2));
                assert(next.drop_last() =~= draws);
                draws = next;
            }
            count = count + 1;
        }
        proof {
            let e = grid(data);
            lemma_channel_swaps_keep_columns(d, draws);
            assert(e[0].len() == d[0].len());
            assert forall|c: int| 0 <= c < e.len() implies #[trigger] e[c].len() == e[0].len() by {
                assert(e[c].len() == d[c].len());
            }
            assert forall|c: int| 0 <= c < d.len() implies (#[trigger] e[c])[0] == d[c][0]
                && e[c][num_bins - 1] == d[c][num_bins - 1] by {
                assert forall|k: int| 0 <= k < draws.len() implies #[trigger] draws[k].0 != 0 by {}
                assert forall|k: int| 0 <= k < draws.len() implies #[trigger] draws[k].0 != num_bins
                    - 1 by {}
            }
        }
        self.fft_data = Some(data);
        proof {
            self.lemma_views();
        }
        Ok(())
    }
}

} // verus!
