use mqom::field::{Gf16, Gf256x2};
use mqom::mq::{
    EQUATION_COUNT, MASTER_SEED_SIZE, PackedEquation, TRIANGULAR_ELEMENT_COUNT, expand_equation,
};
use mqom::params;

fn sequential_master_seed() -> [u8; MASTER_SEED_SIZE] {
    core::array::from_fn(|index| u8::try_from(index).unwrap())
}

#[test]
fn dimensions_are_fixed_and_invalid_indices_are_rejected() {
    let master_seed = sequential_master_seed();
    let equation = expand_equation(&master_seed, 0).unwrap();
    assert_eq!(equation.quadratic().len(), TRIANGULAR_ELEMENT_COUNT);
    assert_eq!(equation.linear().len(), params::MQ_N);
    assert!(expand_equation(&master_seed, EQUATION_COUNT - 1).is_some());
    assert!(expand_equation(&master_seed, EQUATION_COUNT).is_none());
}

#[test]
fn zero_vectors_produce_zero() {
    let equation = expand_equation(&sequential_master_seed(), 0).unwrap();
    let base = [Gf16::zero(); params::MQ_N];
    let extension = [Gf256x2::zero(); params::MQ_N];

    assert!(bool::from(
        equation.evaluate_base(&base).ct_eq(&Gf256x2::zero())
    ));
    assert!(
        equation
            .multiply_base(&base)
            .iter()
            .all(|element| bool::from(element.ct_eq(&Gf256x2::zero())))
    );
    assert!(
        equation
            .multiply_extension(&extension)
            .iter()
            .all(|element| bool::from(element.ct_eq(&Gf256x2::zero())))
    );
}

#[test]
fn extension_matrix_multiplication_uses_lower_triangular_rows() {
    let mut quadratic = vec![Gf256x2::zero(); TRIANGULAR_ELEMENT_COUNT];
    let linear = [Gf256x2::zero(); params::MQ_N];
    let row = 2;
    let row_offset = row * (row + 1) / 2;
    let coefficient_0 = Gf256x2::from_bytes(0x1234u16.to_le_bytes());
    let coefficient_2 = Gf256x2::from_bytes(0xabcd_u16.to_le_bytes());
    quadratic[row_offset] = coefficient_0;
    quadratic[row_offset + 2] = coefficient_2;
    let equation = PackedEquation::new(quadratic, linear).unwrap();

    let mut vector = [Gf256x2::zero(); params::MQ_N];
    vector[0] = Gf256x2::from_bytes(0x00ffu16.to_le_bytes());
    vector[2] = Gf256x2::from_bytes(0xff00u16.to_le_bytes());
    let expected = coefficient_0 * vector[0] + coefficient_2 * vector[2];
    let product = equation.multiply_extension(&vector);

    assert!(bool::from(product[row].ct_eq(&expected)));
    assert!(
        product[..row]
            .iter()
            .chain(&product[row + 1..])
            .all(|element| bool::from(element.ct_eq(&Gf256x2::zero())))
    );
}

#[test]
fn expansion_matches_v2_1_1_oracle_samples() {
    let master_seed = sequential_master_seed();
    let samples = [
        (
            0,
            [
                0xe016, 0x3db6, 0x0602, 0x53dc, 0x8681, 0x606a, 0x5e69, 0x3f06,
            ],
        ),
        (
            13,
            [
                0x7d89, 0x2144, 0xc69f, 0x9146, 0x2da4, 0x7464, 0xacba, 0xa87c,
            ],
        ),
    ];

    for (equation_index, expected) in samples {
        let equation = expand_equation(&master_seed, equation_index).unwrap();
        let observed = [
            equation.quadratic()[0].value(),
            equation.quadratic()[1].value(),
            equation.quadratic()[2].value(),
            equation.quadratic()[162].value(),
            equation.quadratic()[1_540].value(),
            equation.quadratic()[1_595].value(),
            equation.linear()[0].value(),
            equation.linear()[55].value(),
        ];
        assert_eq!(observed, expected);
    }
}

#[test]
fn fixed_vector_evaluations_match_v2_1_1_oracle() {
    let master_seed = sequential_master_seed();
    let vector = core::array::from_fn(|index| Gf16::new(u8::try_from(index & 0x0f).unwrap()));
    let expected = [
        0xdd30, 0x290d, 0xf944, 0xf7f6, 0x87ce, 0x5e93, 0x0df7, 0x68f9, 0x3527, 0xb13b, 0x80b7,
        0x5f3b, 0xb65b, 0xcb6d,
    ];

    for (equation_index, expected) in expected.into_iter().enumerate() {
        let equation = expand_equation(&master_seed, equation_index).unwrap();
        assert_eq!(equation.evaluate_base(&vector).value(), expected);
    }
}

#[test]
fn packed_equations_need_the_triangular_length() {
    let linear = [Gf256x2::zero(); params::MQ_N];
    assert!(PackedEquation::new(vec![Gf256x2::zero(); TRIANGULAR_ELEMENT_COUNT - 1], linear).is_none());
    assert!(PackedEquation::new(vec![Gf256x2::zero(); TRIANGULAR_ELEMENT_COUNT + 1], linear).is_none());
}

#[test]
fn base_evaluation_of_a_single_term() {
    let mut quadratic = vec![Gf256x2::zero(); TRIANGULAR_ELEMENT_COUNT];
    let mut linear = [Gf256x2::zero(); params::MQ_N];
    quadratic[0] = Gf256x2::from_bytes([0x03, 0x00]);
    linear[1] = Gf256x2::from_bytes([0x00, 0x01]);
    let equation = PackedEquation::new(quadratic, linear).unwrap();
    let mut vector = [Gf16::zero(); params::MQ_N];
    vector[0] = Gf16::new(1);
    vector[1] = Gf16::new(1);
    // x0 * (3 * x0) + x1 * (X * 1) = 3 + X.
    assert_eq!(equation.evaluate_base(&vector).value(), 0x0103);
    let product = equation.multiply_base(&vector);
    assert_eq!(product[0].value(), 0x0003);
    assert_eq!(product[1].value(), 0x0000);
}
