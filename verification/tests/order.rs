use speech2text::order::{less, INFINITE, LARGEST, ONE, SMALLEST};

fn samples() -> Vec<f32> {
    vec![
        0.0,
        -0.0,
        1.0,
        -1.0,
        1.5,
        -1.5,
        1.0e-40,
        -1.0e-40,
        f32::MIN_POSITIVE,
        f32::MAX,
        f32::MIN,
        f32::INFINITY,
        f32::NEG_INFINITY,
        f32::NAN,
        -f32::NAN,
        3.1415927,
        1.0e20,
    ]
}

#[test]
fn less_is_the_order_of_numbers() {
    for a in samples() {
        for b in samples() {
            assert_eq!(less(a.to_bits(), b.to_bits()), a < b, "{a} {b}");
        }
    }
}

#[test]
fn less_on_scattered_patterns() {
    let mut x: u32 = 1;
    let mut y: u32 = 0x9E37_79B9;
    for _ in 0..20_000 {
        x = x.wrapping_mul(1_664_525).wrapping_add(1_013_904_223);
        y = y.wrapping_mul(22_695_477).wrapping_add(1);
        assert_eq!(less(x, y), f32::from_bits(x) < f32::from_bits(y));
    }
}

#[test]
fn constants_are_the_bits_of_their_numbers() {
    assert_eq!(LARGEST, f32::MAX.to_bits());
    assert_eq!(SMALLEST, f32::MIN.to_bits());
    assert_eq!(ONE, 1.0f32.to_bits());
    assert_eq!(INFINITE, f32::INFINITY.to_bits());
}
