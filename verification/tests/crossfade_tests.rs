use mammut_fft_lib::operations::crossfade::{BinBoundaries, FadeBoundariesPart};
use mammut_fft_lib::{AudioProcessor, BinAmplitude, Complex64, FadeAmplitude, PartBinAmplitudes};

type Processor = AudioProcessor<f64, Complex64>;

/// The fade width for a crossfade factor, as a share of the run's bins.
fn width_for(factor: f64) -> impl Fn(usize) -> usize {
    move |n: usize| (n as f64 * factor.clamp(0.0, 0.5)) as usize
}

fn weight_of(a: &FadeAmplitude) -> f64 {
    let (n, d) = a.weight();
    n as f64 / d as f64
}

fn weights(p: &PartBinAmplitudes) -> Vec<(usize, f64)> {
    p.bin_amplitudes.iter().map(|b| (b.bin, weight_of(&b.amplitude))).collect()
}

#[test]
fn no_crossfade_is_a_hard_split() {
    let r = Processor::apply_crossfade_to_distribution(vec![0, 0, 1, 1, 1, 0], width_for(0.0), 2);
    assert_eq!(r.len(), 3);
    assert_eq!(r[0].part, 0);
    assert_eq!(r[1].part, 1);
    assert_eq!(r[2].part, 0);
    assert_eq!(weights(&r[0]), vec![(0, 1.0), (1, 1.0)]);
    assert_eq!(weights(&r[1]), vec![(2, 1.0), (3, 1.0), (4, 1.0)]);
    assert_eq!(weights(&r[2]), vec![(5, 1.0)]);
}

#[test]
fn half_crossfade_between_two_parts() {
    let r = Processor::apply_crossfade_to_distribution(
        vec![0, 0, 0, 0, 1, 1, 1, 1],
        width_for(0.5),
        2,
    );
    assert_eq!(r.len(), 2);
    assert_eq!(
        r[0].bin_amplitudes,
        vec![
            BinAmplitude { bin: 0, amplitude: FadeAmplitude::Full },
            BinAmplitude { bin: 1, amplitude: FadeAmplitude::Full },
            BinAmplitude { bin: 2, amplitude: FadeAmplitude::FadeOutEnd { counter: 0, count: 2 } },
            BinAmplitude { bin: 3, amplitude: FadeAmplitude::FadeOutEnd { counter: 1, count: 2 } },
            BinAmplitude { bin: 4, amplitude: FadeAmplitude::FadeInEnd { counter: 0, count: 2 } },
            BinAmplitude { bin: 5, amplitude: FadeAmplitude::FadeInEnd { counter: 1, count: 2 } },
        ]
    );
    assert_eq!(
        weights(&r[0]),
        vec![(0, 1.0), (1, 1.0), (2, 1.0), (3, 0.75), (4, 0.5), (5, 0.25)]
    );
    assert_eq!(
        weights(&r[1]),
        vec![(2, 0.0), (3, 0.25), (4, 0.5), (5, 0.75), (6, 1.0), (7, 1.0)]
    );
}

#[test]
fn crossfade_of_one_bin_per_side() {
    // Runs of two bins with factor 0.5 share one bin with each neighbour.
    let r = Processor::apply_crossfade_to_distribution(vec![0, 0, 1, 1], width_for(0.5), 2);
    assert_eq!(r.len(), 2);
    assert_eq!(weights(&r[0]), vec![(0, 1.0), (1, 1.0), (2, 0.5)]);
    assert_eq!(weights(&r[1]), vec![(1, 0.0), (2, 0.5), (3, 1.0)]);
}

#[test]
fn crossfade_weights_sum_to_one_everywhere() {
    let hard = vec![0, 0, 0, 0, 0, 0, 1, 1, 1, 1, 2, 2, 2, 2, 2, 2, 2, 2, 0, 0, 0];
    for factor in [0.0, 0.1, 0.25, 0.3, 0.5] {
        let r = Processor::apply_crossfade_to_distribution(hard.clone(), width_for(factor), 3);
        let mut sum = vec![0.0; hard.len()];
        for part in &r {
            for (bin, w) in weights(part) {
                sum[bin] += w;
            }
        }
        for s in sum {
            assert!((s - 1.0).abs() < 1e-12, "factor {} gives {}", factor, s);
        }
    }
}

#[test]
fn crossfade_keeps_run_parts_in_order() {
    let r = Processor::apply_crossfade_to_distribution(vec![2, 2, 0, 1, 1, 1], width_for(0.25), 3);
    let parts: Vec<usize> = r.iter().map(|p| p.part).collect();
    assert_eq!(parts, vec![2, 0, 1]);
}

#[test]
fn crossfade_of_empty_assignment() {
    let r = Processor::apply_crossfade_to_distribution(vec![], width_for(0.5), 1);
    assert!(r.is_empty());
}

#[test]
fn fade_amplitude_weights() {
    assert_eq!(FadeAmplitude::Full.weight(), (1, 1));
    assert_eq!(FadeAmplitude::FadeOutStart { counter: 1, count: 4 }.weight(), (1, 8));
    assert_eq!(FadeAmplitude::FadeInStart { counter: 1, count: 4 }.weight(), (5, 8));
    assert_eq!(FadeAmplitude::FadeOutEnd { counter: 1, count: 4 }.weight(), (7, 8));
    assert_eq!(FadeAmplitude::FadeInEnd { counter: 1, count: 4 }.weight(), (3, 8));
}

#[test]
fn bin_boundaries_fade_ends() {
    let b = BinBoundaries { bin_start: 10, bin_end: 19 };
    assert_eq!(b.bin_from_end(3), 17);
    assert_eq!(b.bin_from_start(3), 12);
}

#[test]
fn fade_boundaries_part_bin_count_and_amplitudes() {
    let part = FadeBoundariesPart {
        part: 1,
        part_bins: BinBoundaries { bin_start: 4, bin_end: 9 },
        fade_out_start: Some(BinBoundaries { bin_start: 2, bin_end: 3 }),
        fade_in_start: Some(BinBoundaries { bin_start: 4, bin_end: 5 }),
        fade_out_end: None,
        fade_in_end: None,
    };
    assert_eq!(part.bin_count(), 6);
    let amps = part.bin_amplitudes();
    let bins: Vec<usize> = amps.iter().map(|a| a.bin).collect();
    assert_eq!(bins, vec![2, 3, 4, 5, 6, 7, 8, 9]);
    assert_eq!(amps[0].amplitude, FadeAmplitude::FadeOutStart { counter: 0, count: 2 });
    assert_eq!(amps[3].amplitude, FadeAmplitude::FadeInStart { counter: 1, count: 2 });
    assert_eq!(amps[7].amplitude, FadeAmplitude::Full);
}
