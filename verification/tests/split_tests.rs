use mammut_fft_lib::{AudioError, AudioProcessor, Complex64};

type Processor = AudioProcessor<f64, Complex64>;

fn c(re: f64, im: f64) -> Complex64 {
    Complex64::new(re, im)
}

fn zero() -> Complex64 {
    Complex64::new(0.0, 0.0)
}

fn lin(n: usize, p: usize, complex: bool) -> Vec<usize> {
    Processor::distribute_lin_bins(n, p, complex)
}

/// A mono processor whose spectrum of `fft_size / 2 + 1` bins holds 1, 2, 3, ...
fn with_spectrum(fft_size: usize) -> Processor {
    let mut p = Processor::new();
    p.set_audio_data(44100, 1, vec![vec![0.0; fft_size]]).unwrap();
    let bins: Vec<Complex64> = (0..fft_size / 2 + 1).map(|i| c(i as f64 + 1.0, 1.0)).collect();
    p.store_spectrum(fft_size, vec![bins], 1.0);
    p
}

#[test]
fn lin_distribution_real_layout() {
    assert_eq!(lin(8, 4, false), vec![0, 0, 0, 1, 1, 2, 2, 3, 3]);
    assert_eq!(lin(4, 2, false), vec![0, 0, 0, 1, 1]);
    assert_eq!(lin(3, 1, false), vec![0, 0, 0, 0]);
}

#[test]
fn lin_distribution_complex_layout_mirrors() {
    // 4 frequency bins in 8 entries: DC, 1, 2, 3, 4 (Nyquist), then 3, 2, 1 mirrored.
    assert_eq!(lin(4, 2, true), vec![0, 0, 0, 1, 1, 1, 0, 0]);
}

#[test]
fn lin_distribution_gives_equal_shares() {
    // 10 bins over 3 parts: shares of 4, 3 and 3 bins.
    let a = lin(10, 3, false);
    assert_eq!(a, vec![0, 0, 0, 0, 0, 1, 1, 1, 2, 2, 2]);
    let count = |k: usize| a[1..].iter().filter(|&&x| x == k).count();
    assert_eq!((count(0), count(1), count(2)), (4, 3, 3));
    // As many parts as bins: one bin per part, in order.
    let a = lin(49, 49, false);
    for b in 1..=49 {
        assert_eq!(a[b], b - 1);
    }
}

#[test]
fn grouped_distribution_doc_example() {
    // 16 bins, group size 2, 4 parts: groups of two bins go to parts 0, 1, 2, 3, 0, ...
    let a = Processor::distribute_grouped(16, 4, false, 2, &Processor::distribute_lin_bins);
    assert_eq!(a, vec![0, 0, 0, 1, 1, 2, 2, 3, 3, 0, 0, 1, 1, 2, 2, 3, 3]);
}

#[test]
fn grouped_distribution_with_zero_group_is_plain() {
    let a = Processor::distribute_grouped(8, 4, false, 0, &Processor::distribute_lin_bins);
    assert_eq!(a, lin(8, 4, false));
}

#[test]
fn grouped_distribution_of_single_bins_alternates() {
    let a = Processor::distribute_grouped(6, 2, false, 1, &Processor::distribute_lin_bins);
    assert_eq!(a, vec![0, 0, 1, 0, 1, 0, 1]);
}

#[test]
fn split_part_keeps_only_its_bins() {
    let mut p = with_spectrum(8);
    let r = p.prepare_split_part(1, 2, 0, &Processor::distribute_lin_bins, zero());
    assert_eq!(r, Ok(()));
    // 4 frequency bins over 2 parts: bins 3 and 4 are part 1; DC is part 0.
    assert_eq!(p.fft_data().unwrap()[0], vec![zero(), zero(), zero(), c(4.0, 1.0), c(5.0, 1.0)]);
    p.reset_split().unwrap();
    assert_eq!(
        p.fft_data().unwrap()[0],
        vec![c(1.0, 1.0), c(2.0, 1.0), c(3.0, 1.0), c(4.0, 1.0), c(5.0, 1.0)]
    );
}

#[test]
fn split_part_zero_keeps_dc() {
    let mut p = with_spectrum(8);
    p.prepare_split_part(0, 2, 0, &Processor::distribute_lin_bins, zero()).unwrap();
    assert_eq!(p.fft_data().unwrap()[0], vec![c(1.0, 1.0), c(2.0, 1.0), c(3.0, 1.0), zero(), zero()]);
}

#[test]
fn split_parts_add_up_to_the_spectrum() {
    let original = with_spectrum(16).fft_data().unwrap()[0].clone();
    let mut sum = vec![zero(); original.len()];
    for part in 0..3 {
        let mut p = with_spectrum(16);
        p.prepare_split_part(part, 3, 1, &Processor::distribute_lin_bins, zero()).unwrap();
        for (s, x) in sum.iter_mut().zip(p.fft_data().unwrap()[0].iter()) {
            *s += *x;
        }
    }
    assert_eq!(sum, original);
}

#[test]
fn split_interleaved_groups() {
    let mut p = with_spectrum(8);
    p.prepare_split_part(1, 2, 1, &Processor::distribute_lin_bins, zero()).unwrap();
    // Single-bin groups alternate between the parts: bins 2 and 4 are part 1.
    assert_eq!(p.fft_data().unwrap()[0], vec![zero(), zero(), c(3.0, 1.0), zero(), c(5.0, 1.0)]);
}

#[test]
fn split_errors() {
    let mut p = with_spectrum(8);
    assert_eq!(
        p.prepare_split_part(0, 0, 0, &Processor::distribute_lin_bins, zero()),
        Err(AudioError::ZeroParts)
    );
    assert_eq!(
        p.prepare_split_part(3, 3, 0, &Processor::distribute_lin_bins, zero()),
        Err(AudioError::PartIndexOutOfRange { part_index: 3, num_parts: 3 })
    );
    let mut empty = Processor::new();
    assert_eq!(
        empty.prepare_split_part(0, 2, 0, &Processor::distribute_lin_bins, zero()),
        Err(AudioError::NoFftDataForSplit)
    );
    // A spectrum whose length does not fit the FFT size.
    let mut odd = Processor::new();
    odd.set_audio_data(1, 1, vec![vec![0.0]]).unwrap();
    odd.store_spectrum(8, vec![vec![c(1.0, 0.0); 3]], 1.0);
    assert_eq!(
        odd.prepare_split_part(0, 2, 0, &Processor::distribute_lin_bins, zero()),
        Err(AudioError::AssignmentLengthMismatch)
    );
    assert_eq!(odd.fft_data().unwrap()[0], vec![c(1.0, 0.0); 3]);
}

#[test]
fn reset_split_without_split_keeps_spectrum() {
    let mut p = with_spectrum(4);
    let before = p.fft_data().unwrap().clone();
    assert_eq!(p.reset_split(), Ok(()));
    assert_eq!(p.fft_data().unwrap(), &before);
}

#[test]
fn reset_split_twice_keeps_the_restored_spectrum() {
    let mut p = with_spectrum(8);
    let before = p.fft_data().unwrap().clone();
    p.prepare_split_part(1, 2, 0, &Processor::distribute_lin_bins, zero()).unwrap();
    p.reset_split().unwrap();
    p.reset_split().unwrap();
    assert_eq!(p.fft_data().unwrap(), &before);
}

#[test]
fn grouped_distribution_complex_layout_is_folded_and_mirrored() {
    let a = Processor::distribute_grouped(4, 2, true, 1, &Processor::distribute_lin_bins);
    assert_eq!(a, vec![0, 0, 1, 0, 1, 0, 1, 0]);
    for b in 1..=4 {
        assert_eq!(a[8 - b], a[b]);
    }
}
