use fft_domain::field::Fp;
use fft_domain::field::MODULUS;
use fft_domain::flags::EmptyFlags;
use fft_domain::flags::Flags;

#[test]
fn modulus_and_reduction() {
    assert_eq!(MODULUS, 41);
    assert_eq!(Fp::new(100).value(), 18);
    assert_eq!(Fp::new(41).value(), 0);
    assert_eq!(Fp::zero().value(), 0);
    assert_eq!(Fp::one().value(), 1);
    assert!(Fp::zero().is_zero());
    assert!(Fp::one().is_one());
}

#[test]
fn field_arithmetic_exact_values() {
    assert_eq!(Fp::new(30).add(Fp::new(20)).value(), 9);
    assert_eq!(Fp::new(3).sub(Fp::new(5)).value(), 39);
    assert_eq!(Fp::new(7).mul(Fp::new(6)).value(), 1);
    assert_eq!(Fp::new(1).neg().value(), 40);
    assert_eq!(Fp::zero().neg().value(), 0);
}

#[test]
fn powers_and_inverses() {
    assert_eq!(Fp::new(2).pow(5).value(), 32);
    // the unit group has order 40
    for a in 1..41u64 {
        assert_eq!(Fp::new(a).pow(40), Fp::one());
        assert_eq!(Fp::new(a).inverse().mul(Fp::new(a)), Fp::one());
    }
    // zero has no inverse; the Fermat power maps it to zero
    assert_eq!(Fp::zero().inverse(), Fp::zero());
}

#[test]
fn generator_orders() {
    // the two-adic tower: 27 has order 8, 32 order 4, 40 order 2
    assert_eq!(Fp::new(27).pow(8), Fp::one());
    assert!(Fp::new(27).pow(4) != Fp::one());
    assert_eq!(Fp::new(32).pow(4), Fp::one());
    assert_eq!(Fp::new(40).pow(2), Fp::one());
    // the mixed tower: 6 has order 40, 10 order 5
    assert_eq!(Fp::new(6).pow(40), Fp::one());
    assert!(Fp::new(6).pow(20) != Fp::one());
    assert!(Fp::new(6).pow(8) != Fp::one());
    assert_eq!(Fp::new(10).pow(5), Fp::one());
    assert!(Fp::new(10).pow(1) != Fp::one());
}

#[test]
fn empty_flags_take_no_bits() {
    assert_eq!(EmptyFlags::bit_size(), 0);
    assert_eq!(EmptyFlags.u8_bitmask(), 0);
    assert_eq!(EmptyFlags::from_u8(0xff), Some(EmptyFlags));
    assert_eq!(EmptyFlags::from_u8(0), Some(EmptyFlags));
}

#[test]
fn empty_flags_removal_leaves_byte_untouched() {
    let mut b: u8 = 0b1010_0110;
    let f = EmptyFlags::from_u8_remove_flags(&mut b);
    assert_eq!(f, Some(EmptyFlags));
    assert_eq!(b, 0b1010_0110);
}
