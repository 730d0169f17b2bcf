use mammut_fft_lib::operations::bin_swap::swap_partner;
use mammut_fft_lib::{AudioError, AudioProcessor, Complex64};

type Processor = AudioProcessor<f64, Complex64>;

/// A processor with `channels` channels of `bins` bins; bin `i` of channel `ch`
/// holds `100 * ch + i`.
fn with_spectrum(channels: usize, bins: usize) -> Processor {
    let mut p = Processor::new();
    p.set_audio_data(44100, channels as u16, vec![vec![0.0; 4]; channels]).unwrap();
    let spectrum: Vec<Vec<Complex64>> = (0..channels)
        .map(|ch| (0..bins).map(|i| Complex64::new((100 * ch + i) as f64, 0.0)).collect())
        .collect();
    p.store_spectrum(2 * bins, spectrum, 1.0);
    p
}

fn re_of(p: &Processor, ch: usize) -> Vec<f64> {
    p.fft_data().unwrap()[ch].iter().map(|x| x.re).collect()
}

fn sorted_re(v: &[Complex64]) -> Vec<f64> {
    let mut out: Vec<f64> = v.iter().map(|x| x.re).collect();
    out.sort_by(|a, b| a.partial_cmp(b).unwrap());
    out
}

#[test]
fn swap_partner_inside_the_range() {
    assert_eq!(swap_partner(5, 2, 1, 10), Some(7));
    assert_eq!(swap_partner(5, -3, 1, 10), Some(2));
}

#[test]
fn swap_partner_wraps_around() {
    // 2 - 3 = -1 lies two below the range 1..=10 and comes back in at 9.
    assert_eq!(swap_partner(2, -3, 1, 10), Some(9));
    // 9 + 4 = 13 lies three above the range and comes back in at 3.
    assert_eq!(swap_partner(9, 4, 1, 10), Some(3));
}

#[test]
fn swap_partner_refuses_itself_and_outside() {
    assert_eq!(swap_partner(5, 0, 1, 10), None);
    // A wrap that still falls outside the range swaps nothing.
    assert_eq!(swap_partner(1, -30, 1, 10), None);
}

#[test]
fn swap_bins_keeps_each_channel_s_bins() {
    let mut p = with_spectrum(2, 20);
    let before = p.fft_data().unwrap().clone();
    assert_eq!(p.swap_bins_counted(8, 50), Ok(()));
    let after = p.fft_data().unwrap();
    for ch in 0..2 {
        assert_eq!(after[ch].len(), 20);
        assert_eq!(sorted_re(&after[ch]), sorted_re(&before[ch]));
        assert_eq!(after[ch][0], before[ch][0]);
        assert_eq!(after[ch][19], before[ch][19]);
    }
}

#[test]
fn swap_bins_errors() {
    let mut p = Processor::new();
    assert_eq!(p.swap_bins_counted(4, 1), Err(AudioError::NoFftData));
    for bins in 1..=3 {
        let mut p = with_spectrum(1, bins);
        assert_eq!(p.swap_bins_counted(4, 1), Err(AudioError::NotEnoughBins));
        assert_eq!(p.swap_bins_counted(1, 5), Err(AudioError::NotEnoughBins));
    }
    let mut p = with_spectrum(1, 10);
    assert_eq!(p.swap_bins_counted(0, 1), Err(AudioError::BlockSizeTooSmall));
    assert_eq!(p.fft_data().unwrap()[0][3], Complex64::new(3.0, 0.0));
}

#[test]
fn swap_bins_without_repeats_changes_nothing() {
    let mut p = with_spectrum(2, 10);
    let before = p.fft_data().unwrap().clone();
    p.swap_bins_counted(4, 0).unwrap();
    assert_eq!(p.fft_data().unwrap(), &before);
}

#[test]
fn swap_channels_keeps_each_bin_s_values() {
    let mut p = with_spectrum(3, 12);
    let before = p.fft_data().unwrap().clone();
    assert_eq!(p.swap_channels_counted(40), Ok(()));
    let after = p.fft_data().unwrap();
    for b in 0..12 {
        let col_before: Vec<Complex64> = before.iter().map(|ch| ch[b]).collect();
        let col_after: Vec<Complex64> = after.iter().map(|ch| ch[b]).collect();
        assert_eq!(sorted_re(&col_after), sorted_re(&col_before));
    }
    for ch in 0..3 {
        assert_eq!(after[ch][0], before[ch][0]);
        assert_eq!(after[ch][11], before[ch][11]);
    }
}

#[test]
fn swap_channels_errors() {
    let mut p = Processor::new();
    assert_eq!(p.swap_channels_counted(1), Err(AudioError::NoFftData));
    let mut p = with_spectrum(1, 8);
    assert_eq!(p.swap_channels_counted(1), Err(AudioError::NotEnoughChannels));
}

#[test]
fn swap_bins_with_distance_one_swaps_neighbours() {
    let mut p = with_spectrum(1, 12);
    assert_eq!(p.swap_bins_counted(1, 30), Ok(()));
    let after = re_of(&p, 0);
    let mut sorted = after.clone();
    sorted.sort_by(|a, b| a.partial_cmp(b).unwrap());
    assert_eq!(sorted, (0..12).map(|i| i as f64).collect::<Vec<f64>>());
    assert_eq!(after[0], 0.0);
    assert_eq!(after[11], 11.0);
}

#[test]
fn apply_bin_swaps_follows_the_draws() {
    let mut p = with_spectrum(2, 8);
    // Channel 0: swap 1 with 3, then 6 with its wrapped partner 1; channel 1: 2 with 3.
    let draws = vec![vec![(1, 2), (6, 1)], vec![(2, 1)]];
    assert_eq!(p.apply_bin_swaps(&draws), Ok(()));
    assert_eq!(re_of(&p, 0), vec![0.0, 6.0, 2.0, 1.0, 4.0, 5.0, 3.0, 7.0]);
    assert_eq!(re_of(&p, 1), vec![100.0, 101.0, 103.0, 102.0, 104.0, 105.0, 106.0, 107.0]);
}

#[test]
fn apply_bin_swaps_skips_draws_outside_the_range() {
    let mut p = with_spectrum(1, 6);
    // Bin 0 is DC and bin 7 lies past the spectrum; an offset of 0 names the bin itself.
    let draws = vec![vec![(0, 1), (7, -1), (2, 0)]];
    p.apply_bin_swaps(&draws).unwrap();
    assert_eq!(re_of(&p, 0), vec![0.0, 1.0, 2.0, 3.0, 4.0, 5.0]);
    let mut small = with_spectrum(1, 3);
    assert_eq!(small.apply_bin_swaps(&draws), Err(AudioError::NotEnoughBins));
    let mut empty = Processor::new();
    assert_eq!(empty.apply_bin_swaps(&draws), Err(AudioError::NoFftData));
}

#[test]
fn apply_channel_swaps_follows_the_draws() {
    let mut p = with_spectrum(3, 5);
    let draws = vec![(1, 0, 2), (3, 1, 0), (2, 1, 1), (9, 0, 1)];
    assert_eq!(p.apply_channel_swaps(&draws), Ok(()));
    assert_eq!(re_of(&p, 0), vec![0.0, 201.0, 2.0, 103.0, 4.0]);
    assert_eq!(re_of(&p, 1), vec![100.0, 101.0, 102.0, 3.0, 104.0]);
    assert_eq!(re_of(&p, 2), vec![200.0, 1.0, 202.0, 203.0, 204.0]);
    let mut mono = with_spectrum(1, 5);
    assert_eq!(mono.apply_channel_swaps(&draws), Err(AudioError::NotEnoughChannels));
}

#[test]
fn swap_channels_needs_a_bin_between_dc_and_nyquist() {
    let mut p = with_spectrum(2, 2);
    assert_eq!(p.swap_channels_counted(3), Err(AudioError::NotEnoughBins));
    assert_eq!(p.swap_channels_counted(0), Ok(()));
}
