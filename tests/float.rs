use mandelbrot::float::{FromFloatError, WideFloat};
use std::cmp::Ordering;

fn wide(words: &[u32]) -> WideFloat {
    WideFloat::from_words(words.to_vec())
}

fn from_f32(v: f32, size: usize) -> WideFloat {
    WideFloat::from_f32(v.to_bits(), size).unwrap()
}

fn as_f32(v: &WideFloat) -> f32 {
    f32::from_bits(v.as_f32_round())
}

#[test]
fn precision_diff() {
    let float = wide(&[
        0b00001000_00000001_01000000_00001000,
        0b00001000_00100100_00001000_00010110,
        0b00000000_00000000_10100110_01100010,
        0b00000000_00000000_00000000_00000000,
        0b00000000_00000000_00000000_00000000,
        0b00000000_00000000_00000000_00000000,
    ]);
    assert_eq!(float.precision_diff(10), -2);
    assert_eq!(float.precision_diff(16), -2);
    assert_eq!(float.precision_diff(17), -1);
    assert_eq!(float.precision_diff(32), -1);
    assert_eq!(float.precision_diff(64), 0);
    assert_eq!(float.precision_diff(80), 0);
    assert_eq!(float.precision_diff(81), 1);
    assert_eq!(float.precision_diff(96), 1);
    assert_eq!(float.precision_diff(112), 1);
    assert_eq!(float.precision_diff(113), 2);
}

#[test]
fn precision_diff_of_zero_and_word_multiples() {
    assert_eq!(WideFloat::zero(3).precision_diff(0), 2);
    assert_eq!(wide(&[0, 1]).precision_diff(0), -1);
    assert_eq!(wide(&[0, 2]).precision_diff(1), -1);
    assert_eq!(wide(&[0, 1]).precision_diff(1), 0);
}

#[test]
fn zero_has_zero_words() {
    let z = WideFloat::zero(4);
    assert_eq!(z.words(), &vec![0, 0, 0, 0]);
    assert!(z.is_int());
    assert_eq!(z.floor(), 0);
    assert_eq!(z.word_count(), 4);
}

#[test]
fn min_positive_sets_one_bit() {
    assert_eq!(WideFloat::min_positive(3, 0).words(), &vec![1, 0, 0]);
    assert_eq!(WideFloat::min_positive(3, 37).words(), &vec![0, 32, 0]);
    assert_eq!(WideFloat::min_positive(2, 63).words(), &vec![0, 0x8000_0000]);
}

#[test]
fn from_i32_puts_value_in_integer_word() {
    let v = WideFloat::from_i32(-3, 3);
    assert_eq!(v.words(), &vec![0, 0, 0xffff_fffd]);
    assert_eq!(v.floor(), -3);
    assert!(v.is_int());
    assert_eq!(WideFloat::from_i32(7, 1).words(), &vec![7]);
}

#[test]
fn round_trip_through_f32() {
    for &v in &[1.0f32, -1.0, 0.5, 1.5, -0.3125, 123.456, -2.0e-3, 3.0e-7, 2.0e9, -7.25e5] {
        for n in 2..6 {
            let bits = v.to_bits();
            let exp = (bits >> 23) & 0xff;
            if exp as usize + 32 * (n - 1) >= 150 {
                assert_eq!(from_f32(v, n).as_f32_round(), bits, "{} at {} words", v, n);
            }
        }
    }
}

#[test]
fn round_trip_of_small_exact_values() {
    for &v in &[2.0f32.powi(-20), 3.0 * 2.0f32.powi(-25), -2.0f32.powi(-31)] {
        assert_eq!(from_f32(v, 2).as_f32_round(), v.to_bits());
    }
}

#[test]
fn from_f32_places_mantissa() {
    assert_eq!(from_f32(1.5, 2).words(), &vec![0x8000_0000, 1]);
    assert_eq!(from_f32(-1.5, 2).words(), &vec![0x8000_0000, 0xffff_fffe]);
    assert_eq!(from_f32(0.25, 3).words(), &vec![0, 0x4000_0000, 0]);
}

#[test]
fn from_f32_errors() {
    assert_eq!(WideFloat::from_f32(f32::NAN.to_bits(), 2).unwrap_err(), FromFloatError::IsNan);
    assert_eq!(
        WideFloat::from_f32(f32::INFINITY.to_bits(), 2).unwrap_err(),
        FromFloatError::OutOfRange
    );
    assert_eq!(
        WideFloat::from_f32(f32::NEG_INFINITY.to_bits(), 2).unwrap_err(),
        FromFloatError::OutOfRange
    );
    assert_eq!(WideFloat::from_f32(3.0e9f32.to_bits(), 2).unwrap_err(), FromFloatError::OutOfRange);
    assert_eq!(
        WideFloat::from_f32(2147483648.0f32.to_bits(), 3).unwrap_err(),
        FromFloatError::OutOfRange
    );
}

#[test]
fn most_negative_integer_converts() {
    let min = -2147483648.0f32;
    for n in 1..5 {
        let v = from_f32(min, n);
        assert_eq!(v.words(), WideFloat::from_i32(i32::MIN, n).words());
        assert_eq!(v.as_f32_round(), min.to_bits());
    }
}

#[test]
fn subnormals_and_tiny_values_become_zero() {
    let sub = f32::from_bits(1);
    assert_eq!(from_f32(sub, 2).words(), &vec![0, 0]);
    assert_eq!(from_f32(1.0e-20, 2).words(), &vec![0, 0]);
    assert_eq!(WideFloat::zero(3).as_f32_round(), 0);
    assert_eq!(WideFloat::min_positive(6, 0).as_f32_round(), 0);
}

#[test]
fn as_f32_truncates() {
    // 1 + 2^-30 does not fit in 24 bits and is truncated to 1
    assert_eq!(as_f32(&wide(&[4, 1])), 1.0);
    assert_eq!(as_f32(&wide(&[0xffff_ffff, 0])), f32::from_bits(0x3f7f_ffff));
    assert_eq!(as_f32(&wide(&[0, 0xffff_ffff])), -1.0);
    assert_eq!(as_f32(&wide(&[0, 0x8000_0000])), -2147483648.0);
}

#[test]
fn add_neg_is_zero() {
    for words in [&[0x1234u32, 0x8000_0000][..], &[5, 0, 7], &[0, 0], &[0xffff_ffff]] {
        let x = wide(words);
        let sum = x.clone().add(&x.clone().neg());
        assert_eq!(sum.words(), WideFloat::zero(words.len()).words());
    }
    let most_negative = wide(&[0, 0x8000_0000]);
    assert_eq!(most_negative.clone().neg().words(), most_negative.words());
}

#[test]
fn neg_twice_is_identity() {
    for words in [&[0x1234u32, 0x8000_0000][..], &[0, 0x8000_0000], &[0, 0], &[7, 0, 0xffff_fff0]] {
        let x = wide(words);
        assert_eq!(x.clone().neg().neg().words(), x.words());
    }
    assert_eq!(wide(&[1, 0]).neg().words(), &vec![0xffff_ffff, 0xffff_ffff]);
}

#[test]
fn add_carries_and_wraps() {
    let a = wide(&[0xffff_ffff, 0x7fff_ffff]);
    assert_eq!(a.clone().add(&wide(&[1, 0])).words(), &vec![0, 0x8000_0000]);
    let b = wide(&[0xffff_ffff, 0xffff_ffff]);
    assert_eq!(b.add(&wide(&[1, 0])).words(), &vec![0, 0]);
    let mut c = wide(&[0, 1]);
    c.add_assign(&wide(&[0x8000_0000, 2]));
    assert_eq!(c.words(), &vec![0x8000_0000, 3]);
}

#[test]
fn add_is_commutative_and_associative() {
    let a = wide(&[0xdead_beef, 0x8000_0001, 3]);
    let b = wide(&[0xffff_ffff, 0xffff_ffff, 0x7fff_ffff]);
    let c = wide(&[1, 2, 0xffff_fff0]);
    assert_eq!(a.clone().add(&b).words(), b.clone().add(&a).words());
    let left = a.clone().add(&b).add(&c);
    let right = a.clone().add(&b.clone().add(&c));
    assert_eq!(left.words(), right.words());
}

#[test]
fn sub_borrows() {
    assert_eq!(wide(&[0, 1]).sub(&wide(&[1, 0])).words(), &vec![0xffff_ffff, 0]);
    let mut d = wide(&[0, 0]);
    d.sub_assign(&wide(&[1, 0]));
    assert_eq!(d.words(), &vec![0xffff_ffff, 0xffff_ffff]);
}

#[test]
fn mul_small_integers() {
    for n in 1..6 {
        let p = WideFloat::from_i32(2, n).mul(&WideFloat::from_i32(3, n));
        assert!(p.is_int());
        assert_eq!(p.floor(), 6);
    }
}

#[test]
fn mul_signs_and_fractions() {
    assert_eq!(as_f32(&from_f32(-1.5, 2).mul(&from_f32(2.5, 2))), -3.75);
    assert_eq!(as_f32(&from_f32(-1.5, 3).mul(&from_f32(-0.5, 3))), 0.75);
    assert_eq!(as_f32(&from_f32(0.125, 2).mul(&from_f32(8.0, 2))), 1.0);
    let mut m = from_f32(3.0, 2);
    m.mul_assign(&from_f32(-4.0, 2));
    assert_eq!(m.floor(), -12);
}

#[test]
fn mul_truncates_low_bits() {
    // 2^-32 * 2^-32 is below the last word
    let tiny = wide(&[1, 0]);
    assert_eq!(tiny.mul(&tiny).words(), &vec![0, 0]);
    // (1 + 2^-32) * (1 + 2^-32) = 1 + 2^-31 + 2^-64, the last term dropped
    let a = wide(&[1, 1]);
    assert_eq!(a.mul(&a).words(), &vec![2, 1]);
}

#[test]
fn compare_with_integers() {
    let three = WideFloat::from_i32(3, 2);
    let three_and_a_bit = wide(&[1, 3]);
    assert!(three == 3);
    assert!(three < 4);
    assert!(three_and_a_bit > 3);
    assert!(three_and_a_bit != 3);
    assert_eq!(PartialOrd::<i32>::partial_cmp(&three, &4), Some(Ordering::Less));
    assert_eq!(PartialOrd::<i32>::partial_cmp(&three_and_a_bit, &3), Some(Ordering::Greater));
    assert_eq!(PartialOrd::<i32>::partial_cmp(&three, &3), Some(Ordering::Equal));
    assert_eq!(PartialOrd::<i32>::partial_cmp(&WideFloat::from_i32(-1, 2), &0), Some(Ordering::Less));
    for words in [&[0u32, 5][..], &[9, 5], &[0, 0xffff_ffff], &[1, 0xffff_ffff]] {
        let x = wide(words);
        assert_eq!(x == x.floor(), x.is_int());
    }
}

#[test]
fn total_order() {
    let neg = from_f32(-0.5, 2);
    let pos = from_f32(0.25, 2);
    assert_eq!(neg.cmp(&pos), Ordering::Less);
    assert_eq!(pos.cmp(&neg), Ordering::Greater);
    assert_eq!(pos.cmp(&pos.clone()), Ordering::Equal);
    assert_eq!(wide(&[1, 0, 2]).cmp(&wide(&[0, 1, 2])), Ordering::Less);
    assert_eq!(wide(&[0xffff_ffff, 0]).cmp(&wide(&[0, 1])), Ordering::Less);
    assert_eq!(pos.partial_cmp(&neg), Some(Ordering::Greater));
    assert!(pos == pos.clone());
}

#[test]
fn shifts() {
    let mut r = wide(&[0, 0, 6]);
    r.shr_assign(33);
    assert_eq!(r.words(), &vec![0, 3, 0]);
    let mut h = wide(&[0, 0, 7]);
    h.shr_assign(33);
    assert_eq!(h.words(), &vec![0x8000_0000, 3, 0]);
    let mut n = wide(&[0, 0x8000_0000]);
    n.shr_assign(1);
    assert_eq!(n.words(), &vec![0, 0x4000_0000]);
    let mut l = wide(&[1, 0, 0]);
    l.shl_assign(33);
    assert_eq!(l.words(), &vec![0, 2, 0]);
    let mut o = wide(&[0x8000_0001, 0]);
    o.shl_assign(1);
    assert_eq!(o.words(), &vec![2, 1]);
    let mut gone = wide(&[1, 1]);
    gone.shl_assign(64);
    assert_eq!(gone.words(), &vec![0, 0]);
}

#[test]
fn change_precision_round_trip() {
    let start = wide(&[0x1234_5678, 0x9abc_def0, 3]);
    let mut v = start.clone();
    v.change_precision(2);
    assert_eq!(v.words(), &vec![0, 0, 0x1234_5678, 0x9abc_def0, 3]);
    v.change_precision(-2);
    assert_eq!(v.words(), start.words());
    v.change_precision(-1);
    assert_eq!(v.words(), &vec![0x9abc_def0, 3]);
    let mut w = wide(&[0, 0, 5]);
    w.change_precision(-2);
    w.change_precision(2);
    assert_eq!(w.words(), &vec![0, 0, 5]);
}

#[test]
fn as_bytes_in_native_order() {
    let v = wide(&[0x0403_0201, 0x0807_0605]);
    let mut expected = Vec::new();
    expected.extend_from_slice(&0x0403_0201u32.to_ne_bytes());
    expected.extend_from_slice(&0x0807_0605u32.to_ne_bytes());
    assert_eq!(v.as_bytes(), &expected[..]);
}
