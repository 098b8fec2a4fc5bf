use ultraface::single::Single;

fn same(ours: Single, native: f32) -> bool {
    if native.is_nan() {
        ours.is_nan()
    } else {
        ours.to_bits() == native.to_bits()
    }
}

struct Patterns {
    state: u64,
}

impl Patterns {
    fn next(&mut self) -> u32 {
        self.state ^= self.state << 13;
        self.state ^= self.state >> 7;
        self.state ^= self.state << 17;
        let raw = (self.state >> 16) as u32;
        // Every fourth pattern gets an exponent near that of one, where sums
        // and differences need rounding.
        if raw % 4 == 0 {
            (raw & 0x807f_ffff) | ((120 + (raw >> 8) % 16) << 23)
        } else {
            raw
        }
    }
}

fn edge_patterns() -> Vec<u32> {
    vec![
        0x0000_0000, 0x8000_0000, 0x0000_0001, 0x8000_0001, 0x007f_ffff, 0x0080_0000,
        0x0080_0001, 0x00ff_ffff, 0x0100_0000, 0x3f80_0000, 0xbf80_0000, 0x3f7f_ffff,
        0x3f80_0001, 0x3f00_0000, 0x4000_0000, 0x4b00_0000, 0x4b7f_ffff, 0x4b80_0000,
        0x4f00_0000, 0xcf00_0000, 0x4f7f_ffff, 0x4f80_0000, 0x7f7f_ffff, 0xff7f_ffff,
        0x7f80_0000, 0xff80_0000, 0x7fc0_0000, 0xffc0_0000, 0x7f80_0001, 0x3dcc_cccd,
        0x3e4c_cccd, 0x3f19_999a, 0x3e99_999a, 0x3400_0000, 0x3380_0000, 0x33ff_ffff,
    ]
}

#[test]
fn product_agrees_with_hardware() {
    let edges = edge_patterns();
    for &a in &edges {
        for &b in &edges {
            let ours = Single::from_bits(a).times(Single::from_bits(b));
            assert!(same(ours, f32::from_bits(a) * f32::from_bits(b)), "{:08x} * {:08x}", a, b);
        }
    }
    let mut p = Patterns { state: 0x2545_f491_4f6c_dd1d };
    for _ in 0..200_000 {
        let a = p.next();
        let b = p.next();
        let ours = Single::from_bits(a).times(Single::from_bits(b));
        assert!(same(ours, f32::from_bits(a) * f32::from_bits(b)), "{:08x} * {:08x}", a, b);
    }
}

#[test]
fn difference_agrees_with_hardware() {
    let edges = edge_patterns();
    for &a in &edges {
        for &b in &edges {
            let ours = Single::from_bits(a).minus(Single::from_bits(b));
            assert!(same(ours, f32::from_bits(a) - f32::from_bits(b)), "{:08x} - {:08x}", a, b);
        }
    }
    let mut p = Patterns { state: 0x9e37_79b9_7f4a_7c15 };
    for _ in 0..200_000 {
        let a = p.next();
        let b = p.next();
        let ours = Single::from_bits(a).minus(Single::from_bits(b));
        assert!(same(ours, f32::from_bits(a) - f32::from_bits(b)), "{:08x} - {:08x}", a, b);
    }
}

#[test]
fn quotient_agrees_with_hardware() {
    let edges = edge_patterns();
    for &a in &edges {
        for &b in &edges {
            let ours = Single::from_bits(a).over(Single::from_bits(b));
            assert!(same(ours, f32::from_bits(a) / f32::from_bits(b)), "{:08x} / {:08x}", a, b);
        }
    }
    let mut p = Patterns { state: 0x6a09_e667_f3bc_c908 };
    for _ in 0..200_000 {
        let a = p.next();
        let b = p.next();
        let ours = Single::from_bits(a).over(Single::from_bits(b));
        assert!(same(ours, f32::from_bits(a) / f32::from_bits(b)), "{:08x} / {:08x}", a, b);
    }
}

#[test]
fn exact_values_of_each_operation() {
    let one = Single::from_bits(0x3f80_0000);
    let three = Single::from_bits(0x4040_0000);
    // 1 / 3 rounds to 0x3eaaaaab, and three times that rounds back to 1.
    assert_eq!(one.over(three).to_bits(), 0x3eaa_aaab);
    assert_eq!(one.over(three).times(three).to_bits(), 0x3f80_0000);
    // 0.5 - 0.1 is not exact in single precision: it rounds up to 0.4.
    let half = Single::from_bits(0x3f00_0000);
    let tenth = Single::from_bits(0x3dcc_cccd);
    assert_eq!(half.minus(tenth).to_bits(), 0x3ecc_cccd);
    // 2^24 + 1 is a tie between 2^24 and 2^24 + 2 and goes to the even one.
    assert_eq!(Single::from_u32(16_777_217).to_bits(), 0x4b80_0000);
    assert_eq!(Single::from_u32(16_777_219).to_bits(), 0x4b80_0002);
    // The largest finite number doubled is infinite.
    let largest = Single::from_bits(0x7f7f_ffff);
    assert_eq!(largest.times(Single::from_bits(0x4000_0000)).to_bits(), 0x7f80_0000);
    // The smallest positive number halved is zero: the tie goes to the even zero.
    assert_eq!(Single::from_bits(1).times(half).to_bits(), 0);
    assert_eq!(Single::from_bits(3).times(half).to_bits(), 2);
    // Casts cut toward zero and stop at the ends of the range.
    assert_eq!(Single::from_bits(0xc020_0000).to_i32(), -2);
    assert_eq!(Single::from_bits(0x4f00_0000).to_i32(), i32::MAX);
    assert_eq!(Single::from_bits(0xcf00_0000).to_i32(), i32::MIN);
    assert_eq!(Single::from_bits(0xcf00_0001).to_i32(), i32::MIN);
    assert_eq!(Single::from_bits(0x4f80_0000).to_u32(), u32::MAX);
    assert_eq!(Single::from_bits(0x4f7f_ffff).to_u32(), 4_294_967_040);
    assert_eq!(Single::from_bits(0xbf80_0000).to_u32(), 0);
    assert_eq!(Single::from_bits(0x7fc0_0000).to_i32(), 0);
    assert_eq!(Single::from_bits(0x7fc0_0000).to_u32(), 0);
    // Zero by zero and infinity less infinity are not numbers.
    let zero = Single::from_bits(0);
    let infinity = Single::from_bits(0x7f80_0000);
    assert!(zero.over(zero).is_nan());
    assert!(infinity.minus(infinity).is_nan());
    assert!(zero.times(infinity).is_nan());
    assert_eq!(one.over(zero).to_bits(), 0x7f80_0000);
    // Negative zero less zero keeps its sign; every other exact zero is positive.
    let negative_zero = Single::from_bits(0x8000_0000);
    assert_eq!(negative_zero.minus(zero).to_bits(), 0x8000_0000);
    assert_eq!(zero.minus(zero).to_bits(), 0);
    assert_eq!(one.minus(one).to_bits(), 0);
    assert!(!negative_zero.is_nan() && negative_zero.is_negative());
}

#[test]
fn order_is_strict() {
    let threshold = Single::from_bits(0.9f32.to_bits());
    assert!(!threshold.gt(threshold));
    assert!(Single::from_bits(0.9f32.to_bits() + 1).gt(threshold));
    assert!(!Single::from_bits(0.9f32.to_bits() - 1).gt(threshold));
    // The two zeros are equal, and nothing is ordered with not-a-number.
    let zero = Single::from_bits(0);
    let negative_zero = Single::from_bits(0x8000_0000);
    assert!(!zero.gt(negative_zero) && !negative_zero.gt(zero));
    assert!(Single::from_bits(1).gt(negative_zero));
    let nan = Single::from_bits(0x7fc0_0000);
    assert!(!nan.gt(zero) && !zero.gt(nan) && !nan.gt(nan));
    // A negative threshold: the next pattern above has the smaller magnitude.
    let below = Single::from_bits((-0.5f32).to_bits());
    assert!(Single::from_bits((-0.5f32).to_bits() - 1).gt(below));
    assert!(!Single::from_bits((-0.5f32).to_bits() + 1).gt(below));
}

#[test]
fn order_agrees_with_hardware() {
    let edges = edge_patterns();
    for &a in &edges {
        for &b in &edges {
            let ours = Single::from_bits(a).gt(Single::from_bits(b));
            assert_eq!(ours, f32::from_bits(a) > f32::from_bits(b), "{:08x} > {:08x}", a, b);
        }
    }
    let mut p = Patterns { state: 0x1234_5678_9abc_def1 };
    for _ in 0..200_000 {
        let a = p.next();
        let b = p.next();
        let ours = Single::from_bits(a).gt(Single::from_bits(b));
        assert_eq!(ours, f32::from_bits(a) > f32::from_bits(b), "{:08x} > {:08x}", a, b);
    }
}

#[test]
fn whole_numbers_agree_with_hardware() {
    let mut values: Vec<u32> = vec![
        0, 1, 2, 255, 640, 480, 1000, 0x00ff_ffff, 0x0100_0000, 0x0100_0001, 0x0100_0002,
        0x0100_0003, 0x7fff_ffff, 0x8000_0000, 0xffff_ff7f, 0xffff_ff80, 0xffff_ffff,
    ];
    let mut p = Patterns { state: 0x0fed_cba9_8765_4321 };
    for _ in 0..100_000 {
        values.push(p.next());
    }
    for n in values {
        assert_eq!(Single::from_u32(n).to_bits(), (n as f32).to_bits(), "{}", n);
    }
}

#[test]
fn casts_agree_with_hardware() {
    let mut patterns = edge_patterns();
    let mut p = Patterns { state: 0x0bad_cafe_dead_beef };
    for _ in 0..200_000 {
        patterns.push(p.next());
        // Patterns near the ends of the two integer ranges.
        patterns.push((p.next() & 0x807f_ffff) | ((140 + (p.next() % 24)) << 23));
    }
    for bits in patterns {
        let x = Single::from_bits(bits);
        let native = f32::from_bits(bits);
        assert_eq!(x.to_i32(), native as i32, "{:08x}", bits);
        assert_eq!(x.to_u32(), native as u32, "{:08x}", bits);
        assert_eq!(x.abs().to_bits(), native.abs().to_bits(), "{:08x}", bits);
        assert_eq!(x.is_nan(), native.is_nan(), "{:08x}", bits);
        assert_eq!(x.is_finite(), native.is_finite(), "{:08x}", bits);
    }
}

/// Patterns with few digits set, at exponents around every boundary: their
/// products, sums and differences fall on ties and on the edges of the
/// ranges far more often than those of arbitrary patterns.
fn structured_patterns() -> Vec<u32> {
    let exponents = [0u32, 1, 2, 22, 23, 24, 25, 26, 100, 125, 126, 127, 128, 149, 150, 151, 230, 252, 253, 254];
    let fractions = [0u32, 1, 2, 3, 0x40_0000, 0x40_0001, 0x20_0000, 0x60_0000, 0x7f_fffe, 0x7f_ffff];
    let mut all = Vec::new();
    for e in exponents {
        for f in fractions {
            all.push((e << 23) | f);
            all.push(0x8000_0000 | (e << 23) | f);
        }
    }
    all
}

#[test]
fn ties_and_boundaries_agree_with_hardware() {
    let patterns = structured_patterns();
    for &a in &patterns {
        for &b in &patterns {
            let (x, y) = (Single::from_bits(a), Single::from_bits(b));
            let (p, q) = (f32::from_bits(a), f32::from_bits(b));
            assert!(same(x.times(y), p * q), "{:08x} * {:08x}", a, b);
            assert!(same(x.minus(y), p - q), "{:08x} - {:08x}", a, b);
            assert!(same(x.over(y), p / q), "{:08x} / {:08x}", a, b);
            assert_eq!(x.gt(y), p > q, "{:08x} > {:08x}", a, b);
        }
    }
}
