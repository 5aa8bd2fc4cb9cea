//! The pseudorandom generator.

use telemetry_edge::double::Double;
use telemetry_edge::rng::Rng;

#[test]
fn deterministic_and_in_range() {
    let (mut a, mut b) = (Rng::new(7), Rng::new(7));
    for _ in 0..1000 {
        let x = f64::from_bits(a.fraction().to_bits());
        assert_eq!(x, f64::from_bits(b.fraction().to_bits()));
        assert!((0.0..1.0).contains(&x));
        assert!(a.below(5) < 5);
        b.below(5);
    }
    assert_ne!(Rng::new(0).next_u64(), Rng::new(1).next_u64());
}

#[test]
fn draws_match_the_formulas() {
    // The first draws of a xorshift64* generator from a scrambled seed.
    let mut z = 3u64.wrapping_add(0x9E37_79B9_7F4A_7C15);
    z = (z ^ (z >> 30)).wrapping_mul(0xBF58_476D_1CE4_E5B9);
    z = (z ^ (z >> 27)).wrapping_mul(0x94D0_49BB_1331_11EB);
    z ^= z >> 31;
    let mut x = z;
    x ^= x >> 12;
    x ^= x << 25;
    x ^= x >> 27;
    let drawn = x.wrapping_mul(0x2545_F491_4F6C_DD1D);
    assert_eq!(Rng::new(3).next_u64(), drawn);
    assert_eq!(Rng::new(3).below(1000) as u64, drawn % 1000);
    let fraction = (drawn >> 11) as f64 / (1u64 << 53) as f64;
    assert_eq!(Rng::new(3).fraction().to_bits(), fraction.to_bits());
    let amp = 0.05f64;
    assert_eq!(
        Rng::new(3).noise(Double::from_bits(amp.to_bits())).to_bits(),
        ((fraction * 2.0 - 1.0) * amp).to_bits()
    );
    assert_eq!(Rng::new(3).bytes(1), [drawn as u8]);
    assert!(Rng::new(3).chance(Double::from_integer(1)));
    assert!(!Rng::new(3).chance(Double::from_integer(0)));
}

#[test]
fn some_bytes_are_at_least_one() {
    let mut rng = Rng::new(11);
    let mut lengths: Vec<usize> = (0..200).map(|_| rng.some_bytes(8).len()).collect();
    lengths.sort_unstable();
    lengths.dedup();
    assert_eq!(lengths, [1, 2, 3, 4, 5, 6, 7, 8]);
    assert!(rng.bytes(0).is_empty());
}
