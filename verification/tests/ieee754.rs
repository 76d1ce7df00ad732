use arnis::ieee754::{
    add_double, ceiling_up_to, divide_double, double_of, double_to_i32, is_less, multiply_double,
    single_to_i32, subtract_double,
};

fn next(state: &mut u64) -> u64 {
    *state = state.wrapping_mul(6364136223846793005).wrapping_add(1442695040888963407);
    *state ^ (*state >> 29)
}

/// Doubles of many sizes, far from the largest ones.
fn doubles(count: usize, low: u64, high: u64) -> Vec<f64> {
    let mut state: u64 = 42;
    let mut all = Vec::new();
    for _ in 0..count {
        let exponent = low + next(&mut state) % (high - low);
        let fraction = next(&mut state) >> 12;
        let sign = next(&mut state) & (1 << 63);
        all.push(f64::from_bits(sign | (exponent << 52) | fraction));
    }
    all
}

#[test]
fn sums_and_differences_are_those_of_the_machine() {
    let mut numbers = doubles(400, 1000, 1080);
    numbers.extend(doubles(100, 0, 60));
    numbers.extend([0.0, -0.0, 1.0, -1.0, 0.1, 0.2, 90.0, 5e-324]);
    for &a in &numbers {
        for &b in numbers.iter().step_by(7) {
            assert_eq!(add_double(a.to_bits(), b.to_bits()), (a + b).to_bits());
            assert_eq!(subtract_double(a.to_bits(), b.to_bits()), (a - b).to_bits());
        }
    }
}

#[test]
fn products_are_those_of_the_machine() {
    let mut numbers = doubles(300, 900, 1190);
    numbers.extend(doubles(100, 0, 40));
    numbers.extend([0.0, -0.0, 1.0, -1.0, 0.1, 5e-324]);
    for &a in &numbers {
        for &b in numbers.iter().step_by(5) {
            assert_eq!(multiply_double(a.to_bits(), b.to_bits()), (a * b).to_bits());
        }
    }
}

#[test]
fn quotients_are_those_of_the_machine() {
    let mut numbers = doubles(300, 0, 1190);
    numbers.extend([0.0, -0.0, 0.18, 1.0]);
    let mut divisors = doubles(100, 520, 1190);
    divisors.extend([1.0, 3.0, 7.0, 0.03]);
    for &a in &numbers {
        for &b in &divisors {
            assert_eq!(divide_double(a.to_bits(), b.to_bits()), (a / b).to_bits());
        }
    }
}

#[test]
fn integers_become_the_nearest_doubles() {
    let mut state: u64 = 7;
    for n in [0, 1, 2, 80, 1 << 53, (1 << 53) + 1, (1 << 53) + 3, u64::MAX] {
        assert_eq!(double_of(n), (n as f64).to_bits());
    }
    for shift in 0..64 {
        let n = next(&mut state) >> shift;
        assert_eq!(double_of(n), (n as f64).to_bits());
    }
}

#[test]
fn ceilings_stop_at_the_limit() {
    let ceiling = |x: f64| ceiling_up_to(x.to_bits(), 8);
    assert_eq!(ceiling(-3.5), 0);
    assert_eq!(ceiling(0.0), 0);
    assert_eq!(ceiling(1e-300), 1);
    assert_eq!(ceiling(6.0), 6);
    assert_eq!(ceiling(6.000000000000001), 7);
    assert_eq!(ceiling(8.0), 8);
    assert_eq!(ceiling(1e40), 8);
}

#[test]
fn doubles_become_integers_as_the_machine_casts_them() {
    let mut numbers = doubles(2000, 1000, 1070);
    numbers.extend([
        0.0,
        -0.0,
        0.99,
        -0.99,
        2147483647.5,
        -2147483648.9,
        -2147483649.0,
        f64::NAN,
        f64::INFINITY,
        f64::NEG_INFINITY,
        f64::MAX,
    ]);
    for x in numbers {
        assert_eq!(double_to_i32(x.to_bits()), x as i32);
    }
}

#[test]
fn singles_become_integers_as_the_machine_casts_them() {
    let mut state: u64 = 3;
    for x in [0.0f32, -0.0, 1.5, -1.5, 1e10, -1e10, f32::NAN, f32::INFINITY, f32::NEG_INFINITY] {
        assert_eq!(single_to_i32(x.to_bits()), x as i32);
    }
    for _ in 0..2000 {
        let bits = next(&mut state) as u32;
        assert_eq!(single_to_i32(bits), f32::from_bits(bits) as i32);
    }
}

#[test]
fn order_is_that_of_the_machine() {
    let numbers = doubles(200, 1000, 1060);
    for &a in &numbers {
        for &b in &numbers {
            assert_eq!(is_less(a.to_bits(), b.to_bits()), a < b);
        }
    }
    assert!(!is_less((-0.0f64).to_bits(), 0.0f64.to_bits()));
}
