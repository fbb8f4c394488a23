use rustcalculator::binary32::Binary32;

fn soft(x: f32) -> Binary32 {
    Binary32::from_bits(x.to_bits())
}

fn hard(x: Binary32) -> f32 {
    f32::from_bits(x.to_bits())
}

fn same(ours: Binary32, theirs: f32) -> bool {
    if theirs.is_nan() {
        hard(ours).is_nan()
    } else {
        ours.to_bits() == theirs.to_bits()
    }
}

// A stream of bit patterns that visits the corners of the format as well as
// its bulk.
fn samples() -> Vec<f32> {
    let mut out: Vec<f32> = vec![
        0.0, -0.0, 1.0, -1.0, 2.0, 0.5, 0.1, 10.0, 3.0, 1.5, 2.5, 3.5, 100.0, 1e-4, 9.9e-5, 1e-5,
        1e10, 1e16, 1e20, 1e38, 3.4028235e38, f32::MIN_POSITIVE, 1e-45, 1e-40, 16777216.0,
        16777215.0, 8388608.0, 8388607.5, 0.33333334, 123456.79, f32::INFINITY,
        f32::NEG_INFINITY, f32::NAN, f32::EPSILON, 1.1754942e-38, 0.3, 0.7, 1e-3, 123.456,
    ];
    let mut state: u32 = 0x1234_5678;
    for _ in 0..400 {
        state ^= state << 13;
        state ^= state >> 17;
        state ^= state << 5;
        out.push(f32::from_bits(state));
    }
    out
}

#[test]
fn addition_agrees_with_the_machine() {
    let all = samples();
    for &a in all.iter() {
        for &b in all.iter() {
            assert!(same(soft(a).add(soft(b)), a + b), "{:?} + {:?}", a, b);
        }
    }
}

#[test]
fn subtraction_agrees_with_the_machine() {
    let all = samples();
    for &a in all.iter() {
        for &b in all.iter() {
            assert!(same(soft(a).sub(soft(b)), a - b), "{:?} - {:?}", a, b);
        }
    }
}

#[test]
fn multiplication_agrees_with_the_machine() {
    let all = samples();
    for &a in all.iter() {
        for &b in all.iter() {
            assert!(same(soft(a).mul(soft(b)), a * b), "{:?} * {:?}", a, b);
        }
    }
}

#[test]
fn division_agrees_with_the_machine() {
    let all = samples();
    for &a in all.iter() {
        for &b in all.iter() {
            assert!(same(soft(a).div(soft(b)), a / b), "{:?} / {:?}", a, b);
        }
    }
}

#[test]
fn conversion_agrees_with_the_machine() {
    for n in [0u32, 1, 9, 10, 16777215, 16777216, 16777217, 16777219, 4294967295, 123456789] {
        assert_eq!(Binary32::from_u32(n).to_bits(), (n as f32).to_bits());
    }
}

fn machine_text(x: f32) -> String {
    if x.fract() == 0.0 {
        format!("{:.0}", x)
    } else {
        format!("{:?}", x)
    }
}

#[test]
fn text_agrees_with_the_machine() {
    for &x in samples().iter() {
        assert_eq!(soft(x).to_text(), machine_text(x), "bits {:#x}", x.to_bits());
    }
}

#[test]
fn text_of_chosen_values() {
    assert_eq!(soft(6.0).to_text(), "6");
    assert_eq!(soft(-0.0).to_text(), "-0");
    assert_eq!(soft(0.1).to_text(), "0.1");
    assert_eq!(soft(2.5).to_text(), "2.5");
    assert_eq!(soft(0.33333334).to_text(), "0.33333334");
    assert_eq!(soft(1e-5).to_text(), "1e-5");
    assert_eq!(soft(1.5e-5).to_text(), "1.5e-5");
    assert_eq!(soft(1e-45).to_text(), "1e-45");
    assert_eq!(soft(1e-4).to_text(), "0.0001");
    assert_eq!(soft(f32::INFINITY).to_text(), "inf");
    assert_eq!(soft(f32::NEG_INFINITY).to_text(), "-inf");
    assert_eq!(soft(f32::NAN).to_text(), "NaN");
    assert_eq!(soft(1e38).to_text(), "99999996802856924650656260769173209088");
}

#[test]
fn equality_is_numeric() {
    assert!(soft(0.0) == soft(-0.0));
    assert!(soft(f32::NAN) != soft(f32::NAN));
    assert!(soft(1.5) == soft(1.5));
    assert!(soft(1.5) != soft(2.5));
}

#[test]
fn order_is_numeric() {
    let all = samples();
    for &a in all.iter() {
        for &b in all.iter() {
            assert_eq!(soft(a).partial_cmp(&soft(b)), a.partial_cmp(&b), "{:?} ? {:?}", a, b);
            assert_eq!(soft(a) == soft(b), a == b, "{:?} == {:?}", a, b);
            assert_eq!(soft(a) < soft(b), a < b, "{:?} < {:?}", a, b);
        }
    }
}
