use mammut_fft_lib::{AudioError, AudioProcessor, Complex64};

type Processor = AudioProcessor<f64, Complex64>;

fn c(re: f64, im: f64) -> Complex64 {
    Complex64::new(re, im)
}

fn zero() -> Complex64 {
    Complex64::new(0.0, 0.0)
}

/// A mono processor with the given spectrum.
fn with_bins(bins: Vec<Complex64>) -> Processor {
    let mut p = Processor::new();
    p.set_audio_data(8000, 1, vec![vec![0.0; 4]]).unwrap();
    let n = bins.len();
    p.store_spectrum(2 * (n - 1), vec![bins], 1.0);
    p
}

#[test]
fn keep_peaks_judges_inner_bins_only() {
    let mut p = Processor::new();
    assert_eq!(p.keep_peaks_by(|_a: Complex64, x: Complex64, _b: Complex64| x), Err(AudioError::NoFftData));
    let mut p = with_bins(vec![c(5.0, 0.0), c(1.0, 0.0), c(3.0, 0.0), c(2.0, 0.0), c(9.0, 0.0)]);
    p.keep_peaks_by(|a: Complex64, x: Complex64, b: Complex64| {
        if x.re < a.re || x.re < b.re {
            zero()
        } else {
            x
        }
    })
    .unwrap();
    // Bin 2 is the only inner peak; DC and the last bin are never judged.
    assert_eq!(p.fft_data().unwrap()[0], vec![c(5.0, 0.0), zero(), c(3.0, 0.0), zero(), c(9.0, 0.0)]);
}

#[test]
fn keep_peaks_on_two_bins_changes_nothing() {
    let mut p = with_bins(vec![c(1.0, 0.0), c(2.0, 0.0)]);
    p.keep_peaks_by(|_a: Complex64, _x: Complex64, _b: Complex64| zero()).unwrap();
    assert_eq!(p.fft_data().unwrap()[0], vec![c(1.0, 0.0), c(2.0, 0.0)]);
}

#[test]
fn threshold_removes_picked_bins_after_dc() {
    let mut p = Processor::new();
    assert_eq!(p.apply_threshold_by(|_x: Complex64| true, zero()), Err(AudioError::NoFftData));
    let mut p = with_bins(vec![c(0.1, 0.0), c(0.5, 0.0), c(0.05, 0.0), c(0.9, 0.0)]);
    // Remove everything below 0.2, as a noise gate does.
    p.apply_threshold_by(|x: Complex64| x.norm() < 0.2, zero()).unwrap();
    assert_eq!(p.fft_data().unwrap()[0], vec![c(0.1, 0.0), c(0.5, 0.0), zero(), c(0.9, 0.0)]);
}

#[test]
fn amplitude_derivative_sees_previous_bin() {
    let mut p = with_bins(vec![c(1.0, 0.0), c(3.0, 0.0), c(4.0, 0.0), c(6.0, 0.0)]);
    p.apply_amplitude_derivative_by(|prev: Complex64, x: Complex64, prev_is_dc: bool| {
        let last = if prev_is_dc { prev.re } else { prev.norm() };
        Complex64::new(x.norm() - last, 0.0)
    })
    .unwrap();
    // Every bin uses the original value of its left neighbour.
    assert_eq!(p.fft_data().unwrap()[0], vec![c(1.0, 0.0), c(2.0, 0.0), c(1.0, 0.0), c(2.0, 0.0)]);
}

#[test]
fn amplitude_derivative_tells_dc_apart() {
    let mut p = with_bins(vec![c(1.0, 0.0), c(3.0, 0.0), c(4.0, 0.0)]);
    p.apply_amplitude_derivative_by(|_p: Complex64, _x: Complex64, prev_is_dc: bool| {
        if prev_is_dc {
            c(1.0, 0.0)
        } else {
            c(0.0, 1.0)
        }
    })
    .unwrap();
    assert_eq!(p.fft_data().unwrap()[0], vec![c(1.0, 0.0), c(1.0, 0.0), c(0.0, 1.0)]);
}

#[test]
fn phase_multiply_treats_dc_and_nyquist_apart() {
    let mut p = Processor::new();
    assert_eq!(
        p.apply_phase_multiply_by(|x: Complex64| x, |x: Complex64| x),
        Err(AudioError::NoFftData)
    );
    let mut p = with_bins(vec![c(1.0, 1.0), c(2.0, 2.0), c(3.0, 3.0), c(4.0, 4.0)]);
    p.apply_phase_multiply_by(|x: Complex64| c(x.re, 0.0), |x: Complex64| x.conj()).unwrap();
    assert_eq!(p.fft_data().unwrap()[0], vec![c(1.0, 0.0), c(2.0, -2.0), c(3.0, -3.0), c(4.0, 0.0)]);
}

#[test]
fn prepare_for_ifft_clears_imaginary_ends() {
    let mut p = Processor::new();
    assert_eq!(p.prepare_for_ifft_by(|x: Complex64| c(x.re, 0.0)), Ok(()));
    assert!(!p.has_frequency_data());
    let mut p = with_bins(vec![c(1.0, 1.0), c(2.0, 2.0), c(3.0, 3.0)]);
    p.prepare_for_ifft_by(|x: Complex64| c(x.re, 0.0)).unwrap();
    assert_eq!(p.fft_data().unwrap()[0], vec![c(1.0, 0.0), c(2.0, 2.0), c(3.0, 0.0)]);
    // A single bin is DC and Nyquist at once.
    let mut p = with_bins(vec![c(1.0, 1.0)]);
    p.prepare_for_ifft_by(|x: Complex64| c(x.re, 0.0)).unwrap();
    assert_eq!(p.fft_data().unwrap()[0], vec![c(1.0, 0.0)]);
}

#[test]
fn envelope_shapes_bins_after_dc() {
    let mut p = Processor::new();
    assert_eq!(p.apply_envelope_by(|x: Complex64, _i: usize| x), Err(AudioError::NoFftData));
    let envelope = [0.0, 0.5, 0.0, 1.0];
    let mut p = with_bins(vec![c(2.0, 0.0), c(2.0, 2.0), c(3.0, 0.0), c(4.0, 0.0)]);
    p.apply_envelope_by(|x: Complex64, i: usize| x * envelope[i]).unwrap();
    assert_eq!(p.fft_data().unwrap()[0], vec![c(2.0, 0.0), c(1.0, 1.0), zero(), c(4.0, 0.0)]);
}
