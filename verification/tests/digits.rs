use fixed::bytes::{Bytes, DigitsExp, DigitsUnds};

fn unds_digits(mut d: DigitsUnds) -> Vec<u8> {
    let mut out = Vec::new();
    while let Some((b, rest)) = d.split_first() {
        out.push(b);
        d = rest;
    }
    out
}

fn exp_digits(mut e: DigitsExp) -> Vec<u8> {
    let mut out = Vec::new();
    while let Some((b, rest)) = e.split_first() {
        out.push(b);
        e = rest;
    }
    out
}

#[test]
fn byte_view_ops() {
    let b = Bytes::new(b"145");
    assert_eq!(b.len(), 3);
    assert!(!b.is_empty());
    assert_eq!(b.index(0), b'1');
    assert_eq!(b.index(2), b'5');
    let (first, rest) = b.split_at(1);
    assert_eq!(first.len(), 1);
    assert_eq!(rest.len(), 2);
    assert_eq!(rest.index(0), b'4');
    let (head, tail) = b.split_first().unwrap();
    assert_eq!(head, b'1');
    assert_eq!(tail.len(), 2);
    let (init, last) = b.split_last().unwrap();
    assert_eq!(last, b'5');
    assert_eq!(init.len(), 2);
    assert!(Bytes::new(b"").split_first().is_none());
    assert!(Bytes::new(b"").split_last().is_none());
}

#[test]
fn trimming_round_trip() {
    let cases: &[(&[u8], usize)] = &[
        (b"12_3", 3),
        (b"_12_3_", 3),
        (b"___", 0),
        (b"", 0),
        (b"7", 1),
        (b"_0_0_", 2),
        (b"__1_2__3__", 3),
    ];
    for &(text, want) in cases {
        let d = DigitsUnds::new(Bytes::new(text));
        assert_eq!(d.len(), want);
        assert_eq!(d.is_empty(), want == 0);
        let digits = unds_digits(d);
        assert_eq!(digits.len(), want);
        let plain: Vec<u8> = text.iter().copied().filter(|b| *b != b'_').collect();
        assert_eq!(digits, plain);
    }
}

#[test]
fn split_consistency() {
    let d = DigitsUnds::new(Bytes::new(b"1_23_45"));
    let whole = unds_digits(d);
    for mid in 0..=d.len() {
        let (a, b) = d.split_at(mid);
        assert_eq!(a.len(), mid);
        assert_eq!(b.len(), d.len() - mid);
        let mut joined = unds_digits(a);
        joined.extend(unds_digits(b));
        assert_eq!(joined, whole);
    }
}

#[test]
fn split_last_skips_separators() {
    let d = DigitsUnds::new(Bytes::new(b"1__2"));
    let (rest, last) = d.split_last().unwrap();
    assert_eq!(last, b'2');
    assert_eq!(unds_digits(rest), vec![b'1']);
}

#[test]
fn zero_shift_identity() {
    let int_digits = DigitsUnds::new(Bytes::new(b"12_3"));
    let frac_digits = DigitsUnds::new(Bytes::new(b"4_56"));
    let (i, f) = DigitsExp::new_int_frac(int_digits, frac_digits, 0).unwrap();
    assert_eq!(exp_digits(i), exp_digits(DigitsExp::new1(int_digits)));
    assert_eq!(exp_digits(f), exp_digits(DigitsExp::new1(frac_digits)));
    assert_eq!(exp_digits(DigitsExp::new1(int_digits)), vec![b'1', b'2', b'3']);
}

#[test]
fn shift_preserves_digits() {
    let int_digits = DigitsUnds::new(Bytes::new(b"123"));
    let frac_digits = DigitsUnds::new(Bytes::new(b"456"));
    for e in [-9i32, -3, -2, -1, 0, 1, 2, 3, 7] {
        let (i, f) = DigitsExp::new_int_frac(int_digits, frac_digits, e).unwrap();
        let mut all = exp_digits(i);
        all.extend(exp_digits(f));
        let fill = if e < 0 {
            ((-e) as usize).saturating_sub(3)
        } else {
            (e as usize).saturating_sub(3)
        };
        assert_eq!(all.len(), 6 + fill);
        let significant: Vec<u8> = all.iter().copied().filter(|b| *b != b'0').collect();
        assert_eq!(significant, vec![b'1', b'2', b'3', b'4', b'5', b'6']);
    }
}

#[test]
fn point_inside_integer_run() {
    let int_digits = DigitsUnds::new(Bytes::new(b"1234"));
    let frac_digits = DigitsUnds::new(Bytes::new(b"5"));
    let (i, f) = DigitsExp::new_int_frac(int_digits, frac_digits, -3).unwrap();
    assert_eq!(exp_digits(i), vec![b'1']);
    assert_eq!(exp_digits(f), vec![b'2', b'3', b'4', b'5']);
}

#[test]
fn point_inside_fraction_run() {
    let int_digits = DigitsUnds::new(Bytes::new(b"1"));
    let frac_digits = DigitsUnds::new(Bytes::new(b"2345"));
    let (i, f) = DigitsExp::new_int_frac(int_digits, frac_digits, 2).unwrap();
    assert_eq!(exp_digits(i), vec![b'1', b'2', b'3']);
    assert_eq!(exp_digits(f), vec![b'4', b'5']);
}

#[test]
fn large_exponent_zero_fill() {
    let int_digits = DigitsUnds::new(Bytes::new(b"12"));
    let frac_digits = DigitsUnds::new(Bytes::new(b"5"));

    let (i, f) = DigitsExp::new_int_frac(int_digits, frac_digits, -1_000_000).unwrap();
    assert!(i.is_empty());
    // |e| - int.len() leading zeros, then the three real digits
    assert_eq!(f.len(), 1_000_000 - 2 + 3);
    let (first, rest) = f.split_first().unwrap();
    assert_eq!(first, b'0');
    assert_eq!(rest.len(), f.len() - 1);
    let (a, b) = f.split_at(999_998);
    assert_eq!(a.len(), 999_998);
    assert_eq!(b.len(), f.len() - 999_998);
    assert_eq!(exp_digits(b), vec![b'1', b'2', b'5']);

    let (i, f) = DigitsExp::new_int_frac(int_digits, frac_digits, 1_000_000).unwrap();
    assert!(f.is_empty());
    // the three real digits, then e - frac.len() trailing zeros
    assert_eq!(i.len(), 3 + 1_000_000 - 1);
    let (first, rest) = i.split_first().unwrap();
    assert_eq!(first, b'1');
    assert_eq!(rest.len(), i.len() - 1);

    // extreme exponents still fit the index bookkeeping
    assert!(DigitsExp::new_int_frac(int_digits, frac_digits, i32::MAX).is_some());
    assert!(DigitsExp::new_int_frac(int_digits, frac_digits, i32::MIN).is_some());
}

#[test]
fn exp_split_at_walks_all_segments() {
    let int_digits = DigitsUnds::new(Bytes::new(b"104"));
    let frac_digits = DigitsUnds::new(Bytes::new(b"500"));
    // shift left past the whole integer run: 0.000104500 -> leading zeros,
    // two real runs, stripped trailing zeros
    let (i, f) = DigitsExp::new_int_frac(int_digits, frac_digits, -6).unwrap();
    assert!(i.is_empty());
    assert_eq!(exp_digits(f), vec![b'0', b'0', b'0', b'1', b'0', b'4', b'5']);
    let whole = exp_digits(f);
    for mid in 0..=f.len() {
        let (a, b) = f.split_at(mid);
        assert_eq!(a.len(), mid);
        assert_eq!(b.len(), f.len() - mid);
        let mut joined = exp_digits(a);
        joined.extend(exp_digits(b));
        assert_eq!(joined, whole);
    }
}

#[test]
fn combine_zero_crossing() {
    // leading zeros cross from the integer run into the fraction run
    let i = DigitsUnds::new(Bytes::new(b"00"));
    let f = DigitsUnds::new(Bytes::new(b"05"));
    let (ip, fp) = DigitsExp::new_int_frac(i, f, -4).unwrap();
    assert!(ip.is_empty());
    assert_eq!(exp_digits(fp), vec![b'0', b'0', b'0', b'0', b'0', b'5']);

    // trailing zeros cross from the fraction run into the integer run
    let i2 = DigitsUnds::new(Bytes::new(b"12"));
    let f2 = DigitsUnds::new(Bytes::new(b"00"));
    let (ip2, fp2) = DigitsExp::new_int_frac(i2, f2, -3).unwrap();
    assert!(ip2.is_empty());
    assert_eq!(exp_digits(fp2), vec![b'0', b'1', b'2']);

    // a literal that is all zeros collapses to nothing on both sides
    let zi = DigitsUnds::new(Bytes::new(b"0_0"));
    let zf = DigitsUnds::new(Bytes::new(b"00"));
    let (zip, zfp) = DigitsExp::new_int_frac(zi, zf, -7).unwrap();
    assert!(zip.is_empty());
    assert!(zfp.is_empty());
}

#[test]
fn concrete_scenario() {
    let int_digits = DigitsUnds::new(Bytes::new(b"12_3"));
    let frac_digits = DigitsUnds::new(Bytes::new(b"45_0"));
    let (i, f) = DigitsExp::new_int_frac(int_digits, frac_digits, -2).unwrap();
    assert_eq!(exp_digits(i), vec![b'1']);
    assert_eq!(exp_digits(f), vec![b'2', b'3', b'4', b'5']);
    assert_eq!(i.len(), 1);
    assert_eq!(f.len(), 4);
}
