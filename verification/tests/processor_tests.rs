use mammut_fft_lib::{init, AudioError, AudioProcessor, Complex64};

type Processor = AudioProcessor<f64, Complex64>;

fn c(re: f64, im: f64) -> Complex64 {
    Complex64::new(re, im)
}

fn zero() -> Complex64 {
    Complex64::new(0.0, 0.0)
}

/// A processor with two channels of three samples and a spectrum of `bins` bins per channel.
fn with_spectrum(bins: usize) -> Processor {
    let mut p = Processor::new();
    p.set_audio_data(44100, 2, vec![vec![0.1, 0.2, 0.3], vec![0.4, 0.5, 0.6]]).unwrap();
    let left: Vec<Complex64> = (0..bins).map(|i| c(i as f64 + 1.0, 0.5)).collect();
    let right: Vec<Complex64> = (0..bins).map(|i| c(-(i as f64) - 1.0, 0.25)).collect();
    p.store_spectrum(2 * (bins - 1), vec![left, right], 2.0);
    p
}

#[test]
fn test_init() {
    init();
    // Just checking that it doesn't panic
    assert!(true);
}

#[test]
fn new_processor_is_empty() {
    let p = Processor::new();
    assert_eq!(p.sample_rate(), 0);
    assert_eq!(p.channels(), 0);
    assert_eq!(p.fft_size(), 0);
    assert!(!p.has_time_data());
    assert!(!p.has_frequency_data());
    assert!(p.time_data().is_none());
    assert!(p.fft_data().is_none());
    assert!(p.max_amplitude().is_none());
}

#[test]
fn set_audio_data_stores_samples_and_clears_spectrum() {
    let mut p = with_spectrum(5);
    assert!(p.has_frequency_data());
    let r = p.set_audio_data(48000, 1, vec![vec![1.0, 2.0]]);
    assert_eq!(r, Ok(()));
    assert_eq!(p.sample_rate(), 48000);
    assert_eq!(p.channels(), 1);
    assert_eq!(p.time_data().unwrap(), &vec![vec![1.0, 2.0]]);
    assert!(!p.has_frequency_data());
}

#[test]
fn set_audio_data_rejects_no_channels() {
    let mut p = Processor::new();
    let r = p.set_audio_data(44100, 0, vec![]);
    assert_eq!(r, Err(AudioError::NoAudioData));
    assert_eq!(r.unwrap_err().message(), "No audio data provided");
    assert!(!p.has_time_data());
}

#[test]
fn set_audio_data_rejects_empty_first_channel() {
    let mut p = Processor::new();
    let r = p.set_audio_data(44100, 2, vec![vec![], vec![1.0]]);
    assert_eq!(r, Err(AudioError::EmptyChannels));
    assert_eq!(r.unwrap_err().message(), "Audio data contains empty channels");
}

#[test]
fn set_audio_data_rejects_uneven_channels() {
    let mut p = Processor::new();
    let r = p.set_audio_data(44100, 3, vec![vec![1.0, 2.0, 3.0], vec![1.0, 2.0, 3.0], vec![1.0, 2.0]]);
    assert_eq!(
        r,
        Err(AudioError::InconsistentChannelLengths { first_len: 3, channel: 2, len: 2 })
    );
    assert_eq!(
        r.unwrap_err().message(),
        "Inconsistent channel lengths: channel 0 has 3 samples, channel 2 has 2 samples"
    );
    assert!(!p.has_time_data());
}

#[test]
fn fft_size_is_next_power_of_two() {
    assert_eq!(Processor::fft_size_for(1), 1);
    assert_eq!(Processor::fft_size_for(0), 1);
    assert_eq!(Processor::fft_size_for(2), 2);
    assert_eq!(Processor::fft_size_for(5), 8);
    assert_eq!(Processor::fft_size_for(8), 8);
    assert_eq!(Processor::fft_size_for(1000), 1024);
}

#[test]
fn fft_input_pads_channels_with_zero() {
    let mut p = Processor::new();
    assert_eq!(p.fft_input(0.0), Err(AudioError::NoTimeData));
    p.set_audio_data(8000, 2, vec![vec![1.0, 2.0, 3.0], vec![4.0, 5.0, 6.0]]).unwrap();
    let (size, padded) = p.fft_input(0.0).unwrap();
    assert_eq!(size, 4);
    assert_eq!(padded, vec![vec![1.0, 2.0, 3.0, 0.0], vec![4.0, 5.0, 6.0, 0.0]]);
}

#[test]
fn store_spectrum_and_time_data() {
    let mut p = Processor::new();
    p.set_audio_data(8000, 1, vec![vec![1.0, 2.0, 3.0]]).unwrap();
    p.store_spectrum(4, vec![vec![c(1.0, 0.0), c(2.0, 1.0), c(3.0, 0.0)]], 0.75);
    assert_eq!(p.fft_size(), 4);
    assert_eq!(p.max_amplitude(), Some(0.75));
    assert_eq!(p.fft_data().unwrap()[0][1], c(2.0, 1.0));
    p.store_time_data(vec![vec![9.0, 8.0, 7.0, 6.0]]);
    assert_eq!(p.time_data().unwrap(), &vec![vec![9.0, 8.0, 7.0, 6.0]]);
    assert!(p.has_frequency_data());
}

#[test]
fn set_audio_data_with_length_pads_and_cuts() {
    let mut p = Processor::new();
    let r = p.set_audio_data_with_length(100, 2, vec![vec![1.0, 2.0], vec![3.0, 4.0]], 4, 0.0);
    assert_eq!(r, Ok(()));
    assert_eq!(p.time_data().unwrap(), &vec![vec![1.0, 2.0, 0.0, 0.0], vec![3.0, 4.0, 0.0, 0.0]]);
    let r = p.set_audio_data_with_length(100, 1, vec![vec![1.0, 2.0, 3.0]], 2, 0.0);
    assert_eq!(r, Ok(()));
    assert_eq!(p.time_data().unwrap(), &vec![vec![1.0, 2.0]]);
    assert_eq!(p.channels(), 1);
}

#[test]
fn set_audio_data_with_length_errors() {
    let mut p = Processor::new();
    assert_eq!(
        p.set_audio_data_with_length(100, 1, vec![vec![1.0]], 0, 0.0),
        Err(AudioError::EmptyChannels)
    );
    assert_eq!(
        p.set_audio_data_with_length(100, 2, vec![vec![1.0], vec![]], 4, 0.0),
        Err(AudioError::InconsistentChannelLengths { first_len: 1, channel: 1, len: 0 })
    );
    assert!(!p.has_time_data());
}

#[test]
fn reverse_time_data_reverses_every_channel() {
    let mut p = Processor::new();
    assert_eq!(p.reverse_time_data(), Err(AudioError::NoTimeData));
    p.set_audio_data(100, 2, vec![vec![1.0, 2.0, 3.0], vec![4.0, 5.0, 6.0]]).unwrap();
    assert_eq!(p.reverse_time_data(), Ok(()));
    assert_eq!(p.time_data().unwrap(), &vec![vec![3.0, 2.0, 1.0], vec![6.0, 5.0, 4.0]]);
}

#[test]
fn map_spectrum_applies_function_to_every_bin() {
    let mut p = Processor::new();
    assert_eq!(
        p.map_spectrum(|ch: &Vec<Complex64>, i: usize| ch[i]),
        Err(AudioError::NoFftData)
    );
    assert_eq!(AudioError::NoFftData.message(), "No FFT data available. Load a file first.");
    let mut p = with_spectrum(3);
    // Keep only the real part of DC and Nyquist, as an inverse transform needs.
    let r = p.map_spectrum(|ch: &Vec<Complex64>, i: usize| {
        if i == 0 || i + 1 == ch.len() {
            Complex64::new(ch[i].re, 0.0)
        } else {
            ch[i]
        }
    });
    assert_eq!(r, Ok(()));
    let d = p.fft_data().unwrap();
    assert_eq!(d[0], vec![c(1.0, 0.0), c(2.0, 0.5), c(3.0, 0.0)]);
    assert_eq!(d[1], vec![c(-1.0, 0.0), c(-2.0, 0.25), c(-3.0, 0.0)]);
}

#[test]
fn map_spectrum_sees_the_original_channel() {
    let mut p = with_spectrum(4);
    // Each bin becomes its left neighbour's original value.
    p.map_spectrum(|ch: &Vec<Complex64>, i: usize| if i == 0 { ch[0] } else { ch[i - 1] }).unwrap();
    assert_eq!(p.fft_data().unwrap()[0], vec![c(1.0, 0.5), c(1.0, 0.5), c(2.0, 0.5), c(3.0, 0.5)]);
}

#[test]
fn map_time_data_scales_samples() {
    let mut p = Processor::new();
    assert_eq!(p.map_time_data(|x: f64| x), Err(AudioError::NoTimeData));
    assert_eq!(AudioError::NoTimeData.message(), "No time domain data available");
    p.set_audio_data(100, 1, vec![vec![1.0, -2.0]]).unwrap();
    p.map_time_data(|x: f64| x * 0.5).unwrap();
    assert_eq!(p.time_data().unwrap(), &vec![vec![0.5, -1.0]]);
}

#[test]
fn get_info_reports_counts() {
    let p = Processor::new();
    let info = p.get_info();
    assert_eq!(info.sample_rate, 0);
    assert!(info.time_data.is_none());
    assert!(info.fft_data.is_none());
    let p = with_spectrum(5);
    let info = p.get_info();
    assert_eq!(info.sample_rate, 44100);
    assert_eq!(info.channels, 2);
    assert_eq!(info.fft_size, 8);
    let t = info.time_data.unwrap();
    assert_eq!(t.num_channels, 2);
    assert_eq!(t.samples_per_channel, 3);
    let f = info.fft_data.unwrap();
    assert_eq!(f.num_channels, 2);
    assert_eq!(f.complex_values_per_channel, 5);
}

#[test]
fn lowpass_zeroes_bins_above_cutoff() {
    let mut p = Processor::new();
    assert_eq!(p.apply_lowpass_bins(2, zero()), Err(AudioError::NoFftData));
    let mut p = with_spectrum(5);
    p.apply_lowpass_bins(2, zero()).unwrap();
    let d = p.fft_data().unwrap();
    // The cutoff bin itself stays; only the bins above it are removed.
    assert_eq!(d[0], vec![c(1.0, 0.5), c(2.0, 0.5), c(3.0, 0.5), zero(), zero()]);
    assert_eq!(d[1][2], c(-3.0, 0.25));
    assert_eq!(d[1][3], zero());
    // A cutoff past the spectrum keeps everything.
    let mut p = with_spectrum(5);
    p.apply_lowpass_bins(100, zero()).unwrap();
    assert_eq!(p.fft_data().unwrap()[0][4], c(5.0, 0.5));
}

#[test]
fn highpass_zeroes_bins_below_cutoff() {
    let mut p = with_spectrum(5);
    p.apply_highpass_bins(3, zero()).unwrap();
    let d = p.fft_data().unwrap();
    assert_eq!(d[0], vec![zero(), zero(), zero(), c(4.0, 0.5), c(5.0, 0.5)]);
    let mut p = with_spectrum(3);
    p.apply_highpass_bins(10, zero()).unwrap();
    assert_eq!(p.fft_data().unwrap()[1], vec![zero(), zero(), zero()]);
}

#[test]
fn bandpass_keeps_the_band_inclusive() {
    let mut p = with_spectrum(6);
    p.apply_bandpass_bins(1, 3, zero()).unwrap();
    let d = p.fft_data().unwrap();
    assert_eq!(d[0], vec![zero(), c(2.0, 0.5), c(3.0, 0.5), c(4.0, 0.5), zero(), zero()]);
    let mut p = Processor::new();
    assert_eq!(p.apply_bandpass_bins(1, 3, zero()), Err(AudioError::NoFftData));
}

#[test]
fn spectrum_shift_moves_inner_bins() {
    let mut p = Processor::new();
    assert_eq!(p.shift_spectrum_bins(1, zero()), Err(AudioError::NoFftData));
    let mut p = with_spectrum(6);
    p.shift_spectrum_bins(2, zero()).unwrap();
    // DC and Nyquist stay, bins 1..=4 move up by two, bins moved onto Nyquist are dropped.
    assert_eq!(
        p.fft_data().unwrap()[0],
        vec![c(1.0, 0.5), zero(), zero(), c(2.0, 0.5), c(3.0, 0.5), c(6.0, 0.5)]
    );
    let mut p = with_spectrum(6);
    p.shift_spectrum_bins(-1, zero()).unwrap();
    assert_eq!(
        p.fft_data().unwrap()[0],
        vec![c(1.0, 0.5), c(3.0, 0.5), c(4.0, 0.5), c(5.0, 0.5), zero(), c(6.0, 0.5)]
    );
}

#[test]
fn resample_takes_bins_from_their_sources() {
    let mut p = with_spectrum(5);
    let sources = vec![0, 3, 3, 9, 1];
    p.resample_bins(&sources, 1, zero()).unwrap();
    // Bin 3 points past Nyquist and becomes zero; DC and Nyquist stay.
    assert_eq!(
        p.fft_data().unwrap()[0],
        vec![c(1.0, 0.5), c(4.0, 0.5), c(4.0, 0.5), zero(), c(5.0, 0.5)]
    );
    let mut p = with_spectrum(5);
    let sources = vec![0, 0, 2, 1, 0];
    p.resample_bins(&sources, 1, zero()).unwrap();
    // A source below `min_source` gives zero.
    assert_eq!(
        p.fft_data().unwrap()[1],
        vec![c(-1.0, 0.25), zero(), c(-3.0, 0.25), c(-2.0, 0.25), c(-5.0, 0.25)]
    );
}

#[test]
fn mix_channels_makes_one_channel() {
    let mut p = Processor::new();
    let weights = [0.5, 0.5];
    let mix = |d: &Vec<Vec<f64>>, w: &[f64], i: usize| -> f64 {
        let mut s = 0.0;
        for ch in 0..w.len() {
            s += d[ch][i] * w[ch];
        }
        s
    };
    assert_eq!(p.mix_channels(&weights, mix), Err(AudioError::NoTimeData));
    let mut p = with_spectrum(3);
    let r = p.mix_channels(&[1.0], mix);
    assert_eq!(r, Err(AudioError::WeightCountMismatch { weights: 1, channels: 2 }));
    assert_eq!(r.unwrap_err().message(), "Number of weights (1) must match number of channels (2)");
    p.mix_channels(&weights, mix).unwrap();
    let t = p.time_data().unwrap();
    assert_eq!(t.len(), 1);
    assert!((t[0][0] - 0.25).abs() < 1e-12);
    assert!((t[0][1] - 0.35).abs() < 1e-12);
    assert!((t[0][2] - 0.45).abs() < 1e-12);
    assert_eq!(p.channels(), 1);
    assert!(!p.has_frequency_data());
}

#[test]
fn multiply_spectra_combines_bin_by_bin() {
    let combine = |x: Complex64, y: Complex64, _b: usize, _n: usize| x * y;
    let mut a = Processor::new();
    let b = with_spectrum(3);
    let r = a.multiply_spectra(&b, combine);
    assert_eq!(r, Err(AudioError::SpectrumMissing));
    assert_eq!(r.unwrap_err().message(), "FFT data missing in one or both processors");

    let mut a = with_spectrum(3);
    let mut one = Processor::new();
    one.set_audio_data(1, 1, vec![vec![0.0]]).unwrap();
    one.store_spectrum(4, vec![vec![c(1.0, 0.0), c(1.0, 0.0), c(1.0, 0.0)]], 1.0);
    let r = a.multiply_spectra(&one, combine);
    assert_eq!(r, Err(AudioError::ChannelCountMismatch));
    assert_eq!(r.unwrap_err().message(), "Number of channels must be the same");

    let b = with_spectrum(4);
    let r = a.multiply_spectra(&b, combine);
    assert_eq!(r, Err(AudioError::BinCountMismatch));
    assert_eq!(r.unwrap_err().message(), "Number of bins must be the same");

    let b = with_spectrum(3);
    a.multiply_spectra(&b, combine).unwrap();
    let d = a.fft_data().unwrap();
    assert_eq!(d[0][1], c(2.0, 0.5) * c(2.0, 0.5));
    assert_eq!(d[1][2], c(-3.0, 0.25) * c(-3.0, 0.25));
}

#[test]
fn multiply_spectra_passes_bin_index_and_count() {
    let mut a = with_spectrum(3);
    let b = with_spectrum(3);
    a.multiply_spectra(&b, |_x: Complex64, _y: Complex64, bin: usize, n: usize| {
        Complex64::new(bin as f64, n as f64)
    })
    .unwrap();
    assert_eq!(a.fft_data().unwrap()[1], vec![c(0.0, 3.0), c(1.0, 3.0), c(2.0, 3.0)]);
}

#[test]
fn error_messages_match_the_operations() {
    assert_eq!(AudioError::NotEnoughBins.message(), "Not enough frequency bins to perform swapping");
    assert_eq!(AudioError::BlockSizeTooSmall.message(), "Block size too small for the given FFT size");
    assert_eq!(
        AudioError::NotEnoughChannels.message(),
        "Need at least 2 channels to perform channel swapping"
    );
    assert_eq!(AudioError::ZeroParts.message(), "Number of parts must be greater than zero");
    assert_eq!(
        AudioError::PartIndexOutOfRange { part_index: 4, num_parts: 3 }.message(),
        "Part index 4 is out of range (0 to 2)"
    );
    assert_eq!(
        AudioError::NoFftDataForSplit.message(),
        "No FFT data available. Load a file and perform FFT first."
    );
    assert_eq!(AudioError::AssignmentLengthMismatch.message(), "bins_per_channel <> bin_assignments");
}
