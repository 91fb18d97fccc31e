use porthole::banner::gradient;

#[test]
fn gradient_endpoints() {
    assert_eq!(gradient(0, 8), (199, 146, 255));
    assert_eq!(gradient(7, 8), (124, 58, 237));
}

#[test]
fn gradient_rounds_to_the_nearest_shade() {
    assert_eq!(gradient(0, 1), (199, 146, 255));
    assert_eq!(gradient(5, 0), (199, 146, 255));
    // Half way: 161.5, 102 and 246.
    assert_eq!(gradient(1, 3), (162, 102, 246));
    // One seventh of the way: 188.29, 133.43 and 252.43.
    assert_eq!(gradient(1, 8), (188, 133, 252));
    // Past the end the colours go on fading, down to black.
    assert_eq!(gradient(2, 2), (49, 0, 219));
    assert_eq!(gradient(100, 2), (0, 0, 0));
}

#[test]
fn each_line_is_darker_than_the_one_above() {
    for n in 0..20 {
        for i in 0..25 {
            let above = gradient(i, n);
            let below = gradient(i + 1, n);
            assert!(below.0 <= above.0 && below.1 <= above.1 && below.2 <= above.2);
        }
    }
}

/// The colours in the floating point of the machine.
fn in_floats(i: usize, n: usize) -> (u8, u8, u8) {
    let t = if n <= 1 { 0.0 } else { i as f32 / (n - 1) as f32 };
    let lerp = |a: u8, b: u8| (a as f32 + (b as f32 - a as f32) * t).round() as u8;
    (lerp(199, 124), lerp(146, 58), lerp(255, 237))
}

#[test]
fn gradient_is_computed_in_single_precision() {
    // About 198.4999967 is left, which single precision takes for 198.5.
    assert_eq!(gradient(1000, 150_000).0, 199);
    for n in 0..200 {
        for i in 0..400 {
            assert_eq!(gradient(i, n), in_floats(i, n), "line {i} of {n}");
        }
    }
    // All sizes of both numbers, and the numbers next to powers of two.
    let mut sizes: Vec<usize> = vec![0, 1, usize::MAX];
    for bits in 1..64 {
        let power = 1usize << bits;
        sizes.extend([power - 1, power, power + 1, power + power / 3]);
    }
    for n in &sizes {
        for i in &sizes {
            assert_eq!(gradient(*i, *n), in_floats(*i, *n), "line {i} of {n}");
        }
    }
    // Lines where a channel lies close to the middle of two shades.
    for n in [1001, 150_000, 7_500_001, 16_777_217, 1_000_000_007, 1_000_000_000_039] {
        for half in 0..150usize {
            let middle = (2 * half + 1) * (n - 1) / 150;
            for i in middle.saturating_sub(3)..middle + 4 {
                assert_eq!(gradient(i, n), in_floats(i, n), "line {i} of {n}");
            }
        }
    }
}
