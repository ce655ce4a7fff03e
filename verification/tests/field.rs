use mqom::field::{Gf16, Gf256, Gf256x2, pack_gf16, unpack_gf16};

fn reference_gf16_multiply(mut a: u8, mut b: u8) -> u8 {
    let mut product = 0;
    while b != 0 {
        if b & 1 != 0 {
            product ^= a;
        }
        b >>= 1;
        a <<= 1;
        if a & 0x10 != 0 {
            a ^= 0x13;
        }
    }
    product & 0x0f
}

#[test]
fn multiplication_is_exhaustive() {
    for a in 0..16 {
        for b in 0..16 {
            assert_eq!(
                (Gf16::new(a) * Gf16::new(b)).value(),
                reference_gf16_multiply(a, b)
            );
        }
    }
}

#[test]
fn nonzero_elements_have_inverses() {
    for value in 1..16 {
        let element = Gf16::new(value);
        assert_eq!((element * element.invert()).value(), Gf16::one().value());
    }
    assert_eq!(Gf16::zero().invert().value(), 0);
}

#[test]
fn packed_order_is_low_nibble_first() {
    let elements = [Gf16::new(1), Gf16::new(2), Gf16::new(3), Gf16::new(4)];
    let mut packed = [0u8; 2];
    assert!(pack_gf16(&elements, &mut packed));
    assert_eq!(packed, [0x21, 0x43]);

    let mut unpacked = [Gf16::zero(); 4];
    assert!(unpack_gf16(&packed, &mut unpacked));
    assert!(
        unpacked
            .iter()
            .zip(elements)
            .all(|(left, right)| bool::from(left.ct_eq(&right)))
    );

    let mut wrong = vec![0u8; 3];
    assert!(!pack_gf16(&elements, &mut wrong));
}

fn reference_gf256_multiply(a: u8, b: u8) -> u8 {
    let mut unreduced = 0u16;
    for bit in 0..8 {
        if (b >> bit) & 1 != 0 {
            unreduced ^= u16::from(a) << bit;
        }
    }
    for bit in (8..=14).rev() {
        if unreduced & (1 << bit) != 0 {
            unreduced ^= 0x11b << (bit - 8);
        }
    }
    u8::try_from(unreduced).expect("reference reduction must fit in one byte")
}

#[test]
fn gf256_multiplication_is_exhaustive() {
    for a in 0..=u8::MAX {
        for b in 0..=u8::MAX {
            assert_eq!(
                (Gf256::new(a) * Gf256::new(b)).value(),
                reference_gf256_multiply(a, b)
            );
        }
    }
}

#[test]
fn gf256_nonzero_elements_have_inverses() {
    for value in 1..=u8::MAX {
        let element = Gf256::new(value);
        assert!(bool::from((element * element.invert()).ct_eq(&Gf256::one())));
    }
    assert!(bool::from(Gf256::zero().invert().ct_eq(&Gf256::zero())));
}

#[test]
fn gf16_embedding_preserves_field_operations() {
    let oracle_images = [
        0x00, 0x01, 0xe0, 0xe1, 0x5d, 0x5c, 0xbd, 0xbc, 0xb0, 0xb1, 0x50, 0x51, 0xed, 0xec, 0x0d,
        0x0c,
    ];

    for a in 0..16 {
        assert_eq!(Gf16::new(a).embed().value(), oracle_images[usize::from(a)]);
        for b in 0..16 {
            let a = Gf16::new(a);
            let b = Gf16::new(b);
            assert!(bool::from((a + b).embed().ct_eq(&(a.embed() + b.embed()))));
            assert!(bool::from((a * b).embed().ct_eq(&(a.embed() * b.embed()))));
        }
    }
}

#[test]
fn gf256x2_encoding_is_canonical_little_endian() {
    let element = Gf256x2::from_bytes([0x34, 0x12]);
    assert_eq!(element.value(), 0x1234);
    assert_eq!(element.to_bytes(), [0x34, 0x12]);
}

#[test]
fn gf256x2_arithmetic_matches_oracle_samples() {
    let samples: [(u16, u16, u16); 8] = [
        (0x0000, 0x0000, 0x0000),
        (0x0001, 0x1234, 0x1234),
        (0x1234, 0xabcd, 0x8ee3),
        (0xffff, 0xffff, 0x1345),
        (0x0100, 0x0100, 0x0120),
        (0x53ca, 0xbeef, 0x0f14),
        (0x8001, 0x7ffe, 0x652c),
        (0x00ff, 0xff00, 0x1300),
    ];

    for (left, right, expected) in samples {
        let left = Gf256x2::from_bytes(left.to_le_bytes());
        let right = Gf256x2::from_bytes(right.to_le_bytes());
        assert_eq!((left * right).value(), expected);
    }
}

#[test]
fn gf256x2_nonzero_elements_have_inverses() {
    for value in 1..=u16::MAX {
        let element = Gf256x2::from_bytes(value.to_le_bytes());
        assert!(bool::from(
            (element * element.invert()).ct_eq(&Gf256x2::one())
        ));
    }
    assert!(bool::from(Gf256x2::zero().invert().ct_eq(&Gf256x2::zero())));
}

#[test]
fn gf16_scales_both_extension_coefficients() {
    let scalar = Gf16::new(7);
    let element = Gf256x2::from_bytes(0x53cau16.to_le_bytes());
    let expected = Gf256x2::from_bytes(0x3e93u16.to_le_bytes());

    assert!(bool::from((scalar * element).ct_eq(&expected)));
    assert!(bool::from((element * scalar).ct_eq(&expected)));
}

#[test]
fn subtraction_is_addition_in_characteristic_two() {
    let a = Gf256x2::from_bytes([0x12, 0x34]);
    let b = Gf256x2::from_bytes([0xf0, 0x0f]);
    assert_eq!((a - b).value(), (a + b).value());
    assert_eq!((a + b).value(), 0x3be2);
    assert_eq!((Gf16::new(9) - Gf16::new(3)).value(), 10);
    assert_eq!((Gf256::new(0x53) - Gf256::new(0xca)).value(), 0x99);
}

#[test]
fn squares_and_inverses_agree_with_products() {
    for value in 0..16 {
        let element = Gf16::new(value);
        assert_eq!(element.square().value(), (element * element).value());
    }
    let element = Gf256::new(0x53);
    assert_eq!(element.square().value(), (element * element).value());
    assert_eq!(element.invert().value(), 0xca);
    let extension = Gf256x2::from_bytes([0xca, 0x53]);
    assert_eq!(extension.square().value(), (extension * extension).value());
}

#[test]
fn constructors_reduce_and_split_values() {
    assert_eq!(Gf16::new(0x1f).value(), 0x0f);
    let element = Gf256x2::new(Gf256::new(0x01), Gf256::new(0x80));
    assert_eq!(element.value(), 0x8001);
    assert!(element.ct_eq(&Gf256x2::from_bytes([0x01, 0x80])));
    assert!(!element.ct_eq(&Gf256x2::from_bytes([0x01, 0x81])));
    assert!(Gf16::new(3).ct_eq(&Gf16::new(3)));
    assert!(!Gf16::new(3).ct_eq(&Gf16::new(4)));
}

#[test]
fn unpacking_rejects_wrong_lengths_and_leaves_output() {
    let mut output = [Gf16::new(5); 3];
    assert!(!unpack_gf16(&[0x21], &mut output));
    assert!(output.iter().all(|element| element.value() == 5));
    assert!(unpack_gf16(&[0x21, 0x43], &mut output));
    assert_eq!(
        [output[0].value(), output[1].value(), output[2].value()],
        [1, 2, 3]
    );
    let mut packed = [0u8; 2];
    assert!(pack_gf16(&output, &mut packed));
    assert_eq!(packed, [0x21, 0x03]);
}

#[test]
fn multiplication_commutes_associates_and_distributes() {
    let samples: [u16; 6] = [0x0000, 0x0001, 0x0100, 0x1234, 0xbeef, 0xffff];
    for &a in &samples {
        for &b in &samples {
            let x = Gf256::new((a & 0xff) as u8);
            let y = Gf256::new((b >> 8) as u8);
            assert_eq!((x * y).value(), (y * x).value());
            let p = Gf256x2::from_bytes(a.to_le_bytes());
            let q = Gf256x2::from_bytes(b.to_le_bytes());
            assert_eq!((p * q).value(), (q * p).value());
            for &c in &samples {
                let z = Gf256::new((c ^ 0x5a) as u8);
                assert_eq!(((x * y) * z).value(), (x * (y * z)).value());
                let r = Gf256x2::from_bytes(c.rotate_left(3).to_le_bytes());
                assert_eq!(((p * q) * r).value(), (p * (q * r)).value());
                assert_eq!((p * (q + r)).value(), (p * q + p * r).value());
            }
        }
    }
}
