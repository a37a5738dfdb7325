use just_interval_finder::error::PeakError;
use just_interval_finder::peaks::{find_interval_peaks, rank_peaks};
use rustfft::algorithm::Radix4;
use rustfft::num_complex::Complex;
use rustfft::{Fft, FftDirection};

/// The squared magnitude of every bin of the forward transform of a block.
fn power_spectrum(samples: &[f32]) -> Vec<u32> {
    let fft = Radix4::new(samples.len(), FftDirection::Forward);
    let mut buffer: Vec<Complex<f32>> = samples.iter().map(|&x| Complex { re: x, im: 0.0 }).collect();
    fft.process(&mut buffer);
    buffer.iter().map(|z| z.norm_sqr().to_bits()).collect()
}

/// A block of `n` samples holding cosines at the given bins and amplitudes.
fn tones(n: usize, parts: &[(usize, f32)]) -> Vec<f32> {
    let mut block: Vec<f32> = Vec::new();
    for t in 0..n {
        let mut x: f64 = 0.0;
        for &(bin, amplitude) in parts.iter() {
            let turn: f64 = 2.0 * std::f64::consts::PI * (bin * t) as f64 / n as f64;
            x += amplitude as f64 * turn.cos();
        }
        block.push(x as f32);
    }
    block
}

fn analyse(samples: &[f32], min_height: f32, min_distance: usize) -> Result<Vec<f32>, PeakError> {
    let power: Vec<u32> = power_spectrum(samples);
    let out: Vec<usize> = find_interval_peaks(&power, min_height.to_bits(), min_distance)?;
    Ok(out.iter().map(|&bin| bin as f32).collect())
}

fn bits(values: &[f32]) -> Vec<u32> {
    values.iter().map(|x| x.to_bits()).collect()
}

/// A spectrum of `n` bins with the given energies in its first bins and
/// none elsewhere.
fn spectrum(n: usize, first: &[f32]) -> Vec<u32> {
    let mut power: Vec<f32> = vec![0.0; n];
    power[..first.len()].copy_from_slice(first);
    bits(&power)
}

#[test]
fn single_tone_in_sixteen_samples() {
    let block: Vec<f32> = tones(16, &[(2, 1.0)]);
    assert_eq!(analyse(&block, 0.01, 1), Ok(vec![2.0, 2.0]));
}

#[test]
fn single_tone_in_eight_samples_sits_on_the_quarter_boundary() {
    // Eight samples give four energy bins, of which bins 0 and 1 are
    // eligible: the tone at bin 2 is detected and then left out.
    let block: Vec<f32> = tones(8, &[(2, 1.0)]);
    assert_eq!(analyse(&block, 0.01, 1), Ok(vec![]));
    let power: Vec<u32> = power_spectrum(&block);
    assert_eq!(f32::from_bits(power[2]), 16.0);
    assert_eq!(f32::from_bits(power[6]), 16.0);
}

#[test]
fn single_tone_in_eight_samples_at_bin_one() {
    let block: Vec<f32> = tones(8, &[(1, 1.0)]);
    assert_eq!(analyse(&block, 0.01, 1), Ok(vec![1.0, 1.0]));
}

#[test]
fn silence_has_no_peaks() {
    let block: Vec<f32> = vec![0.0; 8];
    for min_height in [0.0f32, 0.01, 1.0, 1.0e9, f32::INFINITY] {
        for min_distance in [0usize, 1, 2, 3, 4, 5, 8, 100, usize::MAX] {
            assert_eq!(analyse(&block, min_height, min_distance), Ok(vec![]));
        }
    }
}

#[test]
fn two_tones_in_sixteen_samples_taller_first() {
    let block: Vec<f32> = tones(16, &[(1, 2.0), (3, 1.0)]);
    assert_eq!(analyse(&block, 0.01, 1), Ok(vec![1.0, 1.0, 3.0, 3.0]));
    let swapped: Vec<f32> = tones(16, &[(1, 1.0), (3, 2.0)]);
    assert_eq!(analyse(&swapped, 0.01, 1), Ok(vec![3.0, 3.0, 1.0, 1.0]));
}

#[test]
fn two_tones_in_eight_samples_keep_the_one_in_the_lowest_quarter() {
    // Bin 3 is the last of four energy bins: it has no bin to its right,
    // and it lies beyond the lowest quarter.
    let block: Vec<f32> = tones(8, &[(1, 2.0), (3, 1.0)]);
    assert_eq!(analyse(&block, 0.01, 1), Ok(vec![1.0, 1.0]));
}

#[test]
fn ranking_carries_the_energy_of_each_bin() {
    let block: Vec<f32> = tones(16, &[(1, 2.0), (3, 1.0)]);
    let power: Vec<u32> = power_spectrum(&block);
    let found = rank_peaks(&power, 0.01f32.to_bits(), 1).unwrap();
    assert_eq!(found.bins, vec![1, 3]);
    assert_eq!(found.heights, vec![power[1], power[3]]);
    assert!((f32::from_bits(found.heights[0]) - 256.0).abs() < 1.0e-3);
    assert!((f32::from_bits(found.heights[1]) - 64.0).abs() < 1.0e-3);
}

#[test]
fn repeated_calls_agree() {
    let block: Vec<f32> = tones(64, &[(3, 1.0), (5, 1.0), (9, 0.5), (12, 1.0), (14, 0.25)]);
    let first = analyse(&block, 0.01, 2);
    for _ in 0..10 {
        assert_eq!(analyse(&block, 0.01, 2), first);
    }
    assert_eq!(first.unwrap().len(), 10);
}

#[test]
fn output_comes_in_pairs() {
    let block: Vec<f32> = tones(64, &[(2, 1.0), (5, 3.0), (9, 0.5), (13, 2.0), (20, 4.0)]);
    let out: Vec<f32> = analyse(&block, 0.01, 1).unwrap();
    assert_eq!(out, vec![5.0, 5.0, 13.0, 13.0, 2.0, 2.0, 9.0, 9.0]);
    assert_eq!(out.len() % 2, 0);
    for k in 0..out.len() / 2 {
        assert_eq!(out[2 * k], out[2 * k + 1]);
    }
}

#[test]
fn heights_never_rise_along_the_output() {
    let power: Vec<u32> = spectrum(64, &[0.0, 3.0, 0.0, 9.0, 1.0, 4.0, 0.0, 9.5, 2.0, 8.0, 7.0, 7.5]);
    let out: Vec<usize> = find_interval_peaks(&power, 0.5f32.to_bits(), 1).unwrap();
    assert_eq!(out, vec![7, 7, 3, 3, 9, 9, 11, 11, 5, 5, 1, 1]);
    for k in 1..out.len() {
        assert!(f32::from_bits(power[out[k - 1]]) >= f32::from_bits(power[out[k]]));
    }
}

#[test]
fn peaks_nearer_than_the_minimum_distance_yield_to_the_taller() {
    let power: Vec<u32> = spectrum(32, &[0.0, 0.0, 10.0, 0.0, 20.0, 0.0, 5.0, 0.0]);
    assert_eq!(find_interval_peaks(&power, 1.0f32.to_bits(), 0), Ok(vec![4, 4, 2, 2, 6, 6]));
    assert_eq!(find_interval_peaks(&power, 1.0f32.to_bits(), 2), Ok(vec![4, 4, 2, 2, 6, 6]));
    assert_eq!(find_interval_peaks(&power, 1.0f32.to_bits(), 3), Ok(vec![4, 4]));
    assert_eq!(find_interval_peaks(&power, 1.0f32.to_bits(), 15), Ok(vec![4, 4]));
}

#[test]
fn retained_bins_keep_the_minimum_distance() {
    let block: Vec<f32> = tones(128, &[(3, 1.0), (5, 2.0), (6, 1.5), (11, 1.0), (13, 3.0), (20, 1.0), (22, 0.5)]);
    let power: Vec<u32> = power_spectrum(&block);
    for min_distance in 0..20usize {
        let found = rank_peaks(&power, 0.01f32.to_bits(), min_distance).unwrap();
        for &a in found.bins.iter() {
            for &b in found.bins.iter() {
                if a != b {
                    assert!(a.abs_diff(b) >= min_distance);
                }
            }
        }
    }
}

#[test]
fn only_the_lowest_quarter_is_ranked() {
    let power: Vec<u32> = spectrum(16, &[0.0, 2.0, 0.0, 5.0, 50.0, 0.0, 7.0, 0.0]);
    assert_eq!(find_interval_peaks(&power, 1.0f32.to_bits(), 0), Ok(vec![1, 1]));
    let wider: Vec<u32> = spectrum(32, &[0.0, 2.0, 0.0, 5.0, 0.0, 50.0, 0.0, 7.0, 0.0, 60.0, 0.0]);
    assert_eq!(find_interval_peaks(&wider, 1.0f32.to_bits(), 0), Ok(vec![5, 5, 7, 7, 3, 3, 1, 1]));
    let block: Vec<f32> = tones(64, &[(15, 1.0), (17, 2.0), (19, 1.0), (30, 5.0)]);
    assert_eq!(analyse(&block, 0.01, 0), Ok(vec![15.0, 15.0]));
}

#[test]
fn a_peak_beyond_the_quarter_still_crowds_out_its_neighbours() {
    // Detection comes before the restriction: the tall peak at bin 4
    // silences bin 3 and is then dropped itself.
    let power: Vec<u32> = spectrum(16, &[0.0, 0.0, 0.0, 5.0, 4.0, 50.0, 0.0, 0.0]);
    assert_eq!(find_interval_peaks(&power, 1.0f32.to_bits(), 1), Ok(vec![3, 3]));
    assert_eq!(find_interval_peaks(&power, 1.0f32.to_bits(), 3), Ok(vec![]));
}

#[test]
fn a_peak_at_the_threshold_is_left_out() {
    let power: Vec<u32> = spectrum(16, &[0.0, 5.0, 0.0, 0.0]);
    let just_below: u32 = 5.0f32.to_bits() - 1;
    let just_above: u32 = 5.0f32.to_bits() + 1;
    assert_eq!(find_interval_peaks(&power, just_below, 1), Ok(vec![1, 1]));
    assert_eq!(find_interval_peaks(&power, 5.0f32.to_bits(), 1), Ok(vec![]));
    assert_eq!(find_interval_peaks(&power, just_above, 1), Ok(vec![]));
}

#[test]
fn a_threshold_of_zero_counts_every_positive_peak() {
    let power: Vec<u32> = spectrum(16, &[0.0, 1.0e-30, 0.0, 0.0]);
    assert_eq!(find_interval_peaks(&power, 0.0f32.to_bits(), 1), Ok(vec![1, 1]));
    assert_eq!(find_interval_peaks(&power, (-0.0f32).to_bits(), 1), Ok(vec![1, 1]));
}

#[test]
fn a_threshold_at_or_above_the_maximum_leaves_nothing() {
    let block: Vec<f32> = tones(32, &[(2, 1.0), (5, 3.0)]);
    let power: Vec<u32> = power_spectrum(&block);
    let mut top: f32 = 0.0;
    for &p in power.iter() {
        if f32::from_bits(p) > top {
            top = f32::from_bits(p);
        }
    }
    assert_eq!(find_interval_peaks(&power, top.to_bits(), 1), Ok(vec![]));
    assert_eq!(find_interval_peaks(&power, (top * 2.0).to_bits(), 1), Ok(vec![]));
    assert_eq!(find_interval_peaks(&power, f32::INFINITY.to_bits(), 1), Ok(vec![]));
    assert_eq!(find_interval_peaks(&power, 0.01f32.to_bits(), 1), Ok(vec![5, 5, 2, 2]));
}

#[test]
fn a_level_run_is_ranked_by_its_middle() {
    let power: Vec<u32> = spectrum(32, &[0.0, 3.0, 3.0, 3.0, 0.0, 8.0, 8.0, 1.0]);
    assert_eq!(find_interval_peaks(&power, 1.0f32.to_bits(), 1), Ok(vec![6, 6, 2, 2]));
}

#[test]
fn length_that_is_no_power_of_two_is_refused() {
    for n in [0usize, 3, 5, 6, 7, 12, 24, 100] {
        let power: Vec<u32> = vec![0; n];
        assert_eq!(find_interval_peaks(&power, 0.01f32.to_bits(), 0), Err(PeakError::InvalidLength));
        assert_eq!(rank_peaks(&power, 0.01f32.to_bits(), 0).unwrap_err(), PeakError::InvalidLength);
    }
}

#[test]
fn invalid_length_comes_before_degenerate_parameters() {
    let power: Vec<u32> = vec![0; 12];
    assert_eq!(find_interval_peaks(&power, f32::NAN.to_bits(), 99), Err(PeakError::InvalidLength));
}

#[test]
fn threshold_that_is_no_number_is_refused() {
    let power: Vec<u32> = vec![0; 16];
    assert_eq!(find_interval_peaks(&power, f32::NAN.to_bits(), 1), Err(PeakError::DegenerateParameters));
    assert_eq!(find_interval_peaks(&power, 0x7f80_0001, 1), Err(PeakError::DegenerateParameters));
    assert_eq!(find_interval_peaks(&power, 0xffc0_0000, 1), Err(PeakError::DegenerateParameters));
}

#[test]
fn negative_threshold_is_refused() {
    let power: Vec<u32> = vec![0; 16];
    assert_eq!(find_interval_peaks(&power, (-0.01f32).to_bits(), 1), Err(PeakError::DegenerateParameters));
    assert_eq!(find_interval_peaks(&power, f32::NEG_INFINITY.to_bits(), 1), Err(PeakError::DegenerateParameters));
    assert_eq!(rank_peaks(&power, (-1.0f32).to_bits(), 1).unwrap_err(), PeakError::DegenerateParameters);
}

#[test]
fn distance_that_does_not_fit_leaves_nothing() {
    let power: Vec<u32> = spectrum(16, &[0.0, 5.0, 0.0, 9.0, 0.0, 0.0, 0.0, 0.0]);
    assert_eq!(find_interval_peaks(&power, 0.01f32.to_bits(), 7), Ok(vec![3, 3]));
    assert_eq!(find_interval_peaks(&power, 0.01f32.to_bits(), 8), Ok(vec![]));
    assert_eq!(find_interval_peaks(&power, 0.01f32.to_bits(), 9), Ok(vec![]));
    assert_eq!(find_interval_peaks(&power, 0.01f32.to_bits(), usize::MAX), Ok(vec![]));
    let found = rank_peaks(&power, 0.01f32.to_bits(), 8).unwrap();
    assert_eq!(found.bins, Vec::<usize>::new());
    assert_eq!(found.heights, Vec::<u32>::new());
}

#[test]
fn a_spectrum_of_one_or_two_bins_is_taken() {
    assert_eq!(find_interval_peaks(&vec![0; 1], 0.01f32.to_bits(), 0), Ok(vec![]));
    assert_eq!(find_interval_peaks(&vec![7; 1], 0.0f32.to_bits(), 3), Ok(vec![]));
    assert_eq!(find_interval_peaks(&vec![0; 2], 0.01f32.to_bits(), 0), Ok(vec![]));
    assert_eq!(find_interval_peaks(&vec![0; 2], 0.01f32.to_bits(), 1), Ok(vec![]));
}

#[test]
fn a_threshold_above_every_energy_leaves_nothing_at_any_distance() {
    let block: Vec<f32> = tones(32, &[(2, 1.0), (5, 3.0)]);
    let power: Vec<u32> = power_spectrum(&block);
    for min_distance in [0usize, 1, 7, 15, 16, 17, 1000, usize::MAX] {
        assert_eq!(find_interval_peaks(&power, 1.0e9f32.to_bits(), min_distance), Ok(vec![]));
    }
}

#[test]
fn a_bin_that_holds_no_number_is_never_ranked() {
    let mut power: Vec<u32> = spectrum(32, &[0.0, 4.0, 0.0, 0.0, 0.0, 9.0, 0.0, 0.0]);
    power[3] = f32::NAN.to_bits();
    assert_eq!(find_interval_peaks(&power, 1.0f32.to_bits(), 1), Ok(vec![5, 5, 1, 1]));
    power[3] = 0x7f80_0001;
    assert_eq!(find_interval_peaks(&power, 1.0f32.to_bits(), 1), Ok(vec![5, 5, 1, 1]));
    power[3] = 0xffc0_0000;
    assert_eq!(find_interval_peaks(&power, 1.0f32.to_bits(), 1), Ok(vec![5, 5, 1, 1]));
    power[3] = f32::INFINITY.to_bits();
    assert_eq!(find_interval_peaks(&power, 1.0f32.to_bits(), 1), Ok(vec![3, 3, 5, 5, 1, 1]));
}

#[test]
fn a_bin_beside_one_that_holds_no_number_can_be_a_peak() {
    let mut power: Vec<u32> = spectrum(32, &[0.0, 0.0, 4.0, 0.0, 0.0, 0.0, 0.0, 0.0]);
    power[3] = f32::NAN.to_bits();
    assert_eq!(find_interval_peaks(&power, 1.0f32.to_bits(), 1), Ok(vec![2, 2]));
    power[1] = f32::NAN.to_bits();
    assert_eq!(find_interval_peaks(&power, 1.0f32.to_bits(), 1), Ok(vec![2, 2]));
}

#[test]
fn no_bin_is_ranked_twice() {
    let block: Vec<f32> = tones(128, &[(3, 1.0), (5, 2.0), (6, 1.5), (11, 1.0), (13, 3.0), (20, 1.0), (22, 0.5)]);
    let power: Vec<u32> = power_spectrum(&block);
    for min_distance in 0..20usize {
        let found = rank_peaks(&power, 0.0f32.to_bits(), min_distance).unwrap();
        for k in 0..found.bins.len() {
            for l in 0..k {
                assert_ne!(found.bins[k], found.bins[l]);
                assert!(found.bins[k].abs_diff(found.bins[l]) >= min_distance);
            }
        }
    }
    let level_runs: Vec<u32> = spectrum(64, &[0.0, 3.0, 3.0, 0.0, 3.0, 3.0, 3.0, 0.0, 3.0, 0.0]);
    let found = rank_peaks(&level_runs, 1.0f32.to_bits(), 0).unwrap();
    let mut sorted: Vec<usize> = found.bins.clone();
    sorted.sort();
    assert_eq!(sorted, vec![2, 5, 8]);
}

#[test]
fn no_peak_is_passed_over() {
    // With no minimum distance every run above the threshold in the
    // lowest quarter is ranked.
    let power: Vec<u32> = spectrum(64, &[0.0, 2.0, 1.0, 6.0, 6.0, 0.5, 3.0, 0.0, 0.0, 7.0, 1.0, 1.0, 0.0, 4.0, 0.0, 0.0, 9.0]);
    assert_eq!(find_interval_peaks(&power, 1.5f32.to_bits(), 0), Ok(vec![9, 9, 4, 4, 13, 13, 6, 6, 1, 1]));
    assert_eq!(find_interval_peaks(&power, 1.5f32.to_bits(), 3), Ok(vec![9, 9, 4, 4, 13, 13, 1, 1]));
}

#[test]
fn short_spectra_have_no_peaks() {
    assert_eq!(find_interval_peaks(&bits(&[9.0, 1.0]), 0.01f32.to_bits(), 0), Ok(vec![]));
    assert_eq!(find_interval_peaks(&bits(&[0.0, 9.0, 0.0, 9.0]), 0.01f32.to_bits(), 0), Ok(vec![]));
    assert_eq!(find_interval_peaks(&bits(&[0.0, 9.0, 0.0, 0.0, 0.0, 0.0, 0.0, 0.0]), 0.01f32.to_bits(), 0), Ok(vec![1, 1]));
}
