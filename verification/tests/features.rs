use speech2text::features::{apply_cmvn, apply_lfr, Fbank, FRAME_LENGTH, NUM_MEL};
use std::cell::Cell;

fn frames(count: usize) -> Vec<[f32; NUM_MEL]> {
    let mut v = Vec::new();
    for i in 0..count {
        let mut a = [0.0f32; NUM_MEL];
        for (d, x) in a.iter_mut().enumerate() {
            *x = (i * 1000 + d) as f32;
        }
        v.push(a);
    }
    v
}

fn reference(feats: &[[f32; NUM_MEL]], m: usize, n: usize) -> Vec<Vec<f32>> {
    if feats.is_empty() {
        return Vec::new();
    }
    let pad = (m - 1) / 2;
    let t_lfr = feats.len().div_ceil(n);
    let mut out = Vec::new();
    for i in 0..t_lfr {
        let mut v = Vec::new();
        for j in 0..m {
            let idx = i * n + j;
            if idx < pad {
                v.extend_from_slice(&feats[0]);
            } else {
                v.extend_from_slice(&feats[(idx - pad).min(feats.len() - 1)]);
            }
        }
        out.push(v);
    }
    out
}

#[test]
fn stacking_follows_the_definition() {
    for count in [0usize, 1, 2, 5, 6, 7, 13, 50] {
        for (m, n) in [(7usize, 6usize), (1, 1), (2, 3), (3, 1), (4, 10)] {
            let feats = frames(count);
            assert_eq!(apply_lfr(&feats, m, n), reference(&feats, m, n));
        }
    }
}

#[test]
fn stacking_seven_frames_every_six() {
    let out = apply_lfr(&frames(8), 7, 6);
    assert_eq!(out.len(), 2);
    assert_eq!(out[0].len(), 7 * NUM_MEL);
    let firsts: Vec<f32> = (0..7).map(|j| out[0][j * NUM_MEL]).collect();
    assert_eq!(firsts, vec![0.0, 0.0, 0.0, 0.0, 1000.0, 2000.0, 3000.0]);
    let firsts: Vec<f32> = (0..7).map(|j| out[1][j * NUM_MEL]).collect();
    assert_eq!(firsts, vec![3000.0, 4000.0, 5000.0, 6000.0, 7000.0, 7000.0, 7000.0]);
}

#[test]
fn windows_of_one_frame_give_the_frames_back() {
    let feats = frames(4);
    let out = apply_lfr(&feats, 1, 1);
    assert_eq!(out.len(), 4);
    for i in 0..4usize {
        assert_eq!(out[i], feats[i].to_vec());
    }
}

#[test]
fn normalising_is_done_per_dimension() {
    let mut feats = vec![vec![1.0f32, 2.0], vec![3.0, 4.0], vec![]];
    apply_cmvn(&mut feats, &[-1.0, 1.0, 9.0], &[2.0, 0.5], &|x: f32, m: f32, s: f32| (x + m) * s);
    assert_eq!(feats, vec![vec![0.0, 1.5], vec![4.0, 2.5], vec![]]);
}

#[test]
fn too_few_samples_have_no_features() {
    let samples = vec![0.5f32; FRAME_LENGTH - 1];
    let out = Fbank::new().compute(
        &samples,
        1.0f32.to_bits(),
        0.0,
        &|x: f32, s: u32| x * f32::from_bits(s),
        &|_: &[f32]| -> Option<Vec<Vec<f32>>> { panic!("not to be called") },
    );
    assert!(out.is_empty());
}

#[test]
fn samples_are_scaled_for_the_filter_bank() {
    let samples = vec![0.5f32; FRAME_LENGTH];
    for (scale, wanted) in [(1.0f32, 0.5f32), (32768.0, 16384.0), (0.5, 0.25), (-1.0, -0.5)] {
        let seen = Cell::new(0.0f32);
        let out = Fbank::new().compute(
            &samples,
            scale.to_bits(),
            -1.0,
            &|x: f32, s: u32| x * f32::from_bits(s),
            &|s: &[f32]| {
                assert_eq!(s.len(), FRAME_LENGTH);
                seen.set(s[0]);
                Some(vec![vec![7.0f32; NUM_MEL + 3], vec![8.0; 2], vec![]])
            },
        );
        assert_eq!(seen.get(), wanted);
        assert_eq!(out.len(), 3);
        assert_eq!(out[0], [7.0; NUM_MEL]);
        assert_eq!(out[1][..3], [8.0, 8.0, -1.0]);
        assert_eq!(out[2], [-1.0; NUM_MEL]);
    }
}

#[test]
fn scaling_first_gives_the_same_features() {
    let samples: Vec<f32> = (0..1_000).map(|i| (i % 37) as f32 / 64.0).collect();
    let scaled: Vec<f32> = samples.iter().map(|s| s * 32768.0).collect();
    let multiply = |x: f32, s: u32| x * f32::from_bits(s);
    let filter = |s: &[f32]| -> Option<Vec<Vec<f32>>> {
        Some(s.chunks_exact(100).map(|c| vec![c[0], c.iter().sum()]).collect())
    };
    let bank = Fbank::new();
    let at_scale = bank.compute(&samples, 32768.0f32.to_bits(), 0.0, &multiply, &filter);
    let scaled_first = bank.compute(&scaled, 1.0f32.to_bits(), 0.0, &multiply, &filter);
    assert_eq!(at_scale, scaled_first);
    assert_eq!(at_scale.len(), 10);
}

#[test]
fn a_scale_of_one_multiplies_nothing() {
    let samples = vec![0.25f32; FRAME_LENGTH];
    let out = Fbank::new().compute(
        &samples,
        1.0f32.to_bits(),
        0.0,
        &|_: f32, _: u32| -> f32 { panic!("not to be called") },
        &|s: &[f32]| Some(vec![s[..2].to_vec()]),
    );
    assert_eq!(out[0][..3], [0.25, 0.25, 0.0]);
}

#[test]
fn a_failing_filter_bank_gives_no_features() {
    let samples = vec![0.5f32; 1_000];
    let out = Fbank::new().compute(
        &samples,
        1.0f32.to_bits(),
        0.0,
        &|x: f32, _: u32| x,
        &|_: &[f32]| -> Option<Vec<Vec<f32>>> { None },
    );
    assert!(out.is_empty());
}
