use speech2text::ctc::{argmax, greedy, Logits};

fn bits(v: &[f32]) -> Vec<u32> {
    v.iter().map(|x| x.to_bits()).collect()
}

fn best(v: &[f32]) -> usize {
    let values = bits(v);
    let count = values.len();
    argmax(&values, 0, count)
}

#[test]
fn the_first_of_the_best_scores_wins() {
    assert_eq!(best(&[1.0, 3.0, 2.0]), 1);
    assert_eq!(best(&[1.0, 3.0, 3.0]), 1);
    assert_eq!(best(&[-5.0, -3.0, -4.0]), 1);
    assert_eq!(best(&[0.0, -0.0]), 0);
    assert_eq!(best(&[-0.0, 0.0]), 0);
    assert_eq!(best(&[f32::NAN, -2.0, f32::NAN, -1.0]), 3);
    assert_eq!(best(&[1.0, f32::INFINITY]), 1);
}

#[test]
fn without_a_score_that_counts_token_0_is_best() {
    assert_eq!(best(&[]), 0);
    assert_eq!(best(&[f32::NAN, f32::NAN]), 0);
    assert_eq!(best(&[f32::NEG_INFINITY, f32::MIN]), 0);
    assert_eq!(best(&[f32::NEG_INFINITY, f32::MIN, -3.0e38]), 2);
}

#[test]
fn only_the_scores_asked_for_count() {
    let values = bits(&[9.0, 1.0, 2.0, 9.0]);
    assert_eq!(argmax(&values, 1, 2), 1);
}

/// Logits whose best path is `path`.
fn along(path: &[usize], vocab: usize) -> Logits {
    let mut values: Vec<u32> = Vec::new();
    for &p in path {
        for i in 0..vocab {
            values.push((if i == p { 1.0f32 } else { 0.0 }).to_bits());
        }
    }
    Logits { shape: vec![1, path.len() as i64, vocab as i64], values }
}

#[test]
fn repeats_collapse_and_blanks_go() {
    assert_eq!(greedy(&along(&[], 4), 0), vec![]);
    assert_eq!(greedy(&along(&[0, 0, 0], 4), 0), vec![]);
    assert_eq!(greedy(&along(&[0, 1, 1, 0, 1, 2, 2, 2, 3, 0], 4), 0), vec![1, 1, 2, 3]);
    assert_eq!(greedy(&along(&[1, 2, 1], 4), 2), vec![1, 1]);
    assert_eq!(greedy(&along(&[1, 1, 2], 4), 9), vec![1, 2]);
}

#[test]
fn a_blank_separates_equal_tokens() {
    let left = greedy(&along(&[3, 1], 4), 0);
    let right = greedy(&along(&[1, 2], 4), 0);
    let both = greedy(&along(&[3, 1, 0, 1, 2], 4), 0);
    assert_eq!(both, [left, right].concat());
}

#[test]
fn a_repeated_frame_is_decoded_once() {
    assert_eq!(greedy(&along(&[3, 1, 1, 2], 4), 0), greedy(&along(&[3, 1, 2], 4), 0));
    assert_eq!(greedy(&along(&[3, 0, 0, 2], 4), 0), greedy(&along(&[3, 0, 2], 4), 0));
}

#[test]
fn shapes_are_checked() {
    assert!(along(&[1, 2], 3).is_well_formed());
    assert!(!Logits { shape: vec![1, 2], values: vec![0; 6] }.is_well_formed());
    assert!(!Logits { shape: vec![1, 2, 4], values: vec![0; 6] }.is_well_formed());
    assert!(!Logits { shape: vec![1, -1, 0], values: vec![] }.is_well_formed());
    assert!(!Logits { shape: vec![1, i64::MAX, i64::MAX], values: vec![0; 6] }.is_well_formed());
    assert!(Logits { shape: vec![1, 0, 5], values: vec![] }.is_well_formed());
    assert!(Logits { shape: vec![1, 2, 3, 1], values: vec![0; 7] }.is_well_formed());
}
