use fixed::num::Fixed;
use fixed::unwrapped::Unwrapped;

type Uw = Unwrapped<Fixed<i32, 8>>;
type UwU = Unwrapped<Fixed<u32, 8>>;

// 1.0 at eight fractional bits
const ONE: i32 = 256;

#[test]
fn fixed_bits_round_trip() {
    let x: Fixed<i32, 8> = Fixed::from_bits(0x1C0);
    assert_eq!(x.to_bits(), 0x1C0);
    let y: Fixed<u32, 8> = Fixed::from_bits(0xABCD);
    assert_eq!(y.to_bits(), 0xABCD);
    let d: Fixed<i32, 8> = Default::default();
    assert_eq!(d.to_bits(), 0);
    let du: Fixed<u32, 8> = Default::default();
    assert_eq!(du.to_bits(), 0);
}

#[test]
fn unwrapped_bits_round_trip() {
    let x = Uw::from_bits(-640);
    assert_eq!(x.to_bits(), -640);
    assert_eq!(x.0.to_bits(), -640);
}

#[test]
fn rounding_positive() {
    // 2.5
    let x = Uw::from_bits(640);
    assert_eq!(x.int_part().to_bits(), 2 * ONE);
    assert_eq!(x.frac().to_bits(), ONE / 2);
    assert_eq!(x.floor().to_bits(), 2 * ONE);
    assert_eq!(x.ceil().to_bits(), 3 * ONE);
    assert_eq!(x.round_to_zero().to_bits(), 2 * ONE);
    assert_eq!(x.round().to_bits(), 3 * ONE);
    assert_eq!(x.round_ties_even().to_bits(), 2 * ONE);
    // 2.25 rounds down everywhere
    let y = Uw::from_bits(576);
    assert_eq!(y.round().to_bits(), 2 * ONE);
    assert_eq!(y.round_ties_even().to_bits(), 2 * ONE);
    // 3.5 ties to even 4
    let z = Uw::from_bits(896);
    assert_eq!(z.round_ties_even().to_bits(), 4 * ONE);
}

#[test]
fn rounding_negative() {
    // -2.5
    let x = Uw::from_bits(-640);
    assert_eq!(x.int_part().to_bits(), -3 * ONE);
    assert_eq!(x.frac().to_bits(), ONE / 2);
    assert_eq!(x.floor().to_bits(), -3 * ONE);
    assert_eq!(x.ceil().to_bits(), -2 * ONE);
    assert_eq!(x.round_to_zero().to_bits(), -2 * ONE);
    assert_eq!(x.round().to_bits(), -3 * ONE);
    assert_eq!(x.round_ties_even().to_bits(), -2 * ONE);
    // exact values stay put
    let w = Uw::from_bits(-3 * ONE);
    assert_eq!(w.floor().to_bits(), -3 * ONE);
    assert_eq!(w.ceil().to_bits(), -3 * ONE);
    assert_eq!(w.round().to_bits(), -3 * ONE);
}

#[test]
fn signs_and_misc() {
    let x = Uw::from_bits(640);
    assert!(x.is_positive());
    assert!(!x.is_negative());
    assert!(!x.is_zero());
    assert!(Uw::from_bits(0).is_zero());
    assert_eq!(x.abs().to_bits(), 640);
    assert_eq!(Uw::from_bits(-640).abs().to_bits(), 640);
    assert_eq!(x.signum().to_bits(), ONE);
    assert_eq!(Uw::from_bits(-7).signum().to_bits(), -ONE);
    assert_eq!(Uw::from_bits(0).signum().to_bits(), 0);
    assert_eq!(x.dist(Uw::from_bits(-100)).to_bits(), 740);
    assert_eq!(Uw::from_bits(-100).dist(x).to_bits(), 740);
    // mean rounds toward negative infinity
    assert_eq!(Uw::from_bits(3).mean(Uw::from_bits(4)).to_bits(), 3);
    assert_eq!(Uw::from_bits(-3).mean(Uw::from_bits(4)).to_bits(), 0);
    assert_eq!(Uw::from_bits(-3).mean(Uw::from_bits(-4)).to_bits(), -4);
}

#[test]
fn euclid_ops() {
    // 7.5 and 2.0
    let a = Uw::from_bits(1920);
    let b = Uw::from_bits(2 * ONE);
    assert_eq!(a.rem_euclid(b).to_bits(), 384);
    assert_eq!(Uw::from_bits(-1920).rem_euclid(b).to_bits(), 128);
    assert_eq!(a.rem_euclid(Uw::from_bits(-2 * ONE)).to_bits(), 384);
    assert_eq!(a.div_euclid(b).to_bits(), 3 * ONE);
    assert_eq!(Uw::from_bits(-1920).div_euclid(b).to_bits(), -4 * ONE);
    assert_eq!(a.div_euclid(Uw::from_bits(-2 * ONE)).to_bits(), -3 * ONE);
    // by an integer: 7.5 div 2 = 3, 7.5 rem 2 = 1.5
    assert_eq!(a.div_euclid_int(2).to_bits(), 3 * ONE);
    assert_eq!(a.rem_euclid_int(2).to_bits(), 384);
    assert_eq!(Uw::from_bits(-1920).div_euclid_int(2).to_bits(), -4 * ONE);
    assert_eq!(Uw::from_bits(-1920).rem_euclid_int(2).to_bits(), 128);
}

#[test]
fn signed_unsigned_mix() {
    let s = Uw::from_bits(-5 * ONE);
    let u: Fixed<u32, 8> = Fixed::from_bits(3 * ONE as u32);
    assert_eq!(s.add_unsigned(u).to_bits(), -2 * ONE);
    assert_eq!(Uw::from_bits(3 * ONE).sub_unsigned(Fixed::from_bits(5 * ONE as u32)).to_bits(), -2 * ONE);
    let us = UwU::from_bits(5 * ONE as u32);
    let sf: Fixed<i32, 8> = Fixed::from_bits(-3 * ONE);
    assert_eq!(us.add_signed(sf).to_bits(), 2 * ONE as u32);
    assert_eq!(us.sub_signed(Fixed::from_bits(ONE)).to_bits(), 4 * ONE as u32);
}

#[test]
fn bit_counts() {
    assert_eq!(UwU::from_bits(0).count_ones(), 0);
    assert_eq!(UwU::from_bits(0).count_zeros(), 32);
    assert_eq!(UwU::from_bits(u32::MAX).count_ones(), 32);
    assert_eq!(UwU::from_bits(u32::MAX).count_zeros(), 0);
    assert_eq!(UwU::from_bits(0b1011_0100).count_ones(), 4);
    assert_eq!(UwU::from_bits(0b1011_0100).count_zeros(), 28);
    assert_eq!(UwU::from_bits(0).leading_zeros(), 32);
    assert_eq!(UwU::from_bits(1).leading_zeros(), 31);
    assert_eq!(UwU::from_bits(u32::MAX).leading_zeros(), 0);
    assert_eq!(UwU::from_bits(0).trailing_zeros(), 32);
    assert_eq!(UwU::from_bits(0b1011_0100).trailing_zeros(), 2);
    assert_eq!(UwU::from_bits(1).trailing_zeros(), 0);
    // 4.0 at eight fractional bits: log2 is 2
    assert_eq!(UwU::from_bits(4 * ONE as u32).int_log2(), 2);
    // 0.25: log2 is -2
    assert_eq!(UwU::from_bits(64).int_log2(), -2);
    assert_eq!(UwU::from_bits(1).int_log2(), -8);
}

#[test]
fn ones_runs() {
    assert_eq!(UwU::from_bits(u32::MAX).leading_ones(), 32);
    assert_eq!(UwU::from_bits(u32::MAX).trailing_ones(), 32);
    assert_eq!(UwU::from_bits(0).leading_ones(), 0);
    assert_eq!(UwU::from_bits(0).trailing_ones(), 0);
    assert_eq!(UwU::from_bits(0xFFFF_0000).leading_ones(), 16);
    assert_eq!(UwU::from_bits(0xFFFF_0000).trailing_ones(), 0);
    assert_eq!(UwU::from_bits(0b0111).trailing_ones(), 3);
}

#[test]
fn value_log10() {
    // 100.0 at eight fractional bits
    assert_eq!(Uw::from_bits(100 * ONE).int_log10(), 2);
    assert_eq!(Uw::from_bits(99 * ONE).int_log10(), 1);
    assert_eq!(Uw::from_bits(ONE).int_log10(), 0);
    // 0.5 -> -1, 0.05-ish -> -2
    assert_eq!(Uw::from_bits(ONE / 2).int_log10(), -1);
    assert_eq!(Uw::from_bits(13).int_log10(), -2);
    // the smallest positive value: 1/256 ~ 0.0039
    assert_eq!(Uw::from_bits(1).int_log10(), -3);
}

#[test]
fn signed_bits_counts() {
    // the worked examples for four fractional bits
    type Uw4 = Unwrapped<Fixed<i32, 4>>;
    assert_eq!(Uw4::from_bits(-48).signed_bits(), 7); // -3
    assert_eq!(Uw4::from_bits(-16).signed_bits(), 5); // -1
    assert_eq!(Uw4::from_bits(-1).signed_bits(), 1); // -0.0625
    assert_eq!(Uw4::from_bits(0).signed_bits(), 1);
    assert_eq!(Uw4::from_bits(1).signed_bits(), 2); // 0.0625
    assert_eq!(Uw4::from_bits(16).signed_bits(), 6); // 1
    assert_eq!(Uw4::from_bits(48).signed_bits(), 7); // 3
}

#[test]
fn unsigned_bit_ops() {
    assert_eq!(UwU::from_bits(0).significant_bits(), 0);
    assert_eq!(UwU::from_bits(1).significant_bits(), 1);
    // 1.0 at eight fractional bits needs nine bits
    assert_eq!(UwU::from_bits(ONE as u32).significant_bits(), 9);
    assert_eq!(UwU::from_bits(3 * ONE as u32).significant_bits(), 10);
    assert_eq!(UwU::from_bits(u32::MAX).significant_bits(), 32);

    assert!(UwU::from_bits(ONE as u32 / 2).is_power_of_two());
    assert!(UwU::from_bits(4 * ONE as u32).is_power_of_two());
    assert!(!UwU::from_bits(5 * ONE as u32).is_power_of_two());
    assert!(!UwU::from_bits(0).is_power_of_two());

    assert_eq!(UwU::from_bits(0b11_0010).highest_one().to_bits(), 0b10_0000);
    assert_eq!(UwU::from_bits(4 * ONE as u32).highest_one().to_bits(), 4 * ONE as u32);
    assert_eq!(UwU::from_bits(0).highest_one().to_bits(), 0);

    assert_eq!(UwU::from_bits(0b11_0010).next_power_of_two().to_bits(), 0b100_0000);
    assert_eq!(UwU::from_bits(4 * ONE as u32).next_power_of_two().to_bits(), 4 * ONE as u32);
    assert_eq!(UwU::from_bits(0).next_power_of_two().to_bits(), 1);
}
