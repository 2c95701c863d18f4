use lambdaworks_stark::field::U32Field;
use lambdaworks_stark::field::U32TestField;
use lambdaworks_stark::field::TEST_FIELD_MODULUS;

const P: u32 = 2013265921;

#[test]
fn bit_size_of_test_field_is_31() {
    assert_eq!(U32TestField::field_bit_size(), 31);
}

#[test]
fn modulus_is_fifteen_times_two_to_the_27_plus_one() {
    assert_eq!(TEST_FIELD_MODULUS, 15 * (1 << 27) + 1);
}

#[test]
fn add_wraps_around_the_modulus() {
    assert_eq!(U32TestField::add(&(P - 1), &1), 0);
    assert_eq!(U32TestField::add(&(P - 1), &(P - 1)), P - 2);
    assert_eq!(U32TestField::add(&3, &4), 7);
}

#[test]
fn add_reduces_inputs_that_are_not_canonical() {
    assert_eq!(U32TestField::add(&P, &P), 0);
    assert_eq!(U32TestField::add(&u32::MAX, &u32::MAX), ((u32::MAX as u64 * 2) % P as u64) as u32);
}

#[test]
fn sub_wraps_around_zero() {
    assert_eq!(U32TestField::sub(&0, &1), P - 1);
    assert_eq!(U32TestField::sub(&5, &7), P - 2);
    assert_eq!(U32TestField::sub(&7, &5), 2);
    assert_eq!(U32TestField::sub(&1, &u32::MAX), (1 + P - (u32::MAX % P)) % P);
}

#[test]
fn neg_of_zero_is_zero() {
    assert_eq!(U32TestField::neg(&0), 0);
    assert_eq!(U32TestField::neg(&P), 0);
}

#[test]
fn neg_is_the_additive_inverse() {
    for a in [1u32, 2, 12345, P - 1, P + 5] {
        let n = U32TestField::neg(&a);
        assert!(n < P);
        assert_eq!(U32TestField::add(&a, &n), 0);
    }
}

#[test]
fn mul_reduces_the_product() {
    assert_eq!(U32TestField::mul(&(P - 1), &(P - 1)), 1);
    assert_eq!(U32TestField::mul(&123456789, &987654321), ((123456789u64 * 987654321u64) % P as u64) as u32);
    assert_eq!(U32TestField::mul(&0, &77), 0);
}

#[test]
fn pow_by_binary_exponentiation() {
    assert_eq!(U32TestField::pow(&3, 0), 1);
    assert_eq!(U32TestField::pow(&3, 1), 3);
    assert_eq!(U32TestField::pow(&3, 100), 1617422557);
    assert_eq!(U32TestField::pow(&0, 0), 1);
    assert_eq!(U32TestField::pow(&0, 5), 0);
    assert_eq!(U32TestField::pow(&31, (P - 1) as u64), 1);
}

#[test]
fn inv_is_the_multiplicative_inverse() {
    assert_eq!(U32TestField::inv(&2), 1006632961);
    assert_eq!(U32TestField::inv(&3), 1342177281);
    for a in [1u32, 2, 3, 31, 440564289, P - 1] {
        let i = U32TestField::inv(&a);
        assert_eq!(U32TestField::mul(&a, &i), 1);
    }
}

#[test]
fn div_multiplies_by_the_inverse() {
    assert_eq!(U32TestField::div(&6, &3), 2);
    assert_eq!(U32TestField::div(&1, &2), 1006632961);
    let q = U32TestField::div(&17, &5);
    assert_eq!(U32TestField::mul(&q, &5), 17);
}

#[test]
fn eq_compares_residues() {
    assert!(U32TestField::eq(&0, &P));
    assert!(U32TestField::eq(&5, &(P + 5)));
    assert!(!U32TestField::eq(&5, &6));
}

#[test]
fn zero_and_one() {
    assert_eq!(U32TestField::zero(), 0);
    assert_eq!(U32TestField::one(), 1);
}

#[test]
fn from_u64_reduces() {
    assert_eq!(U32TestField::from_u64(0), 0);
    assert_eq!(U32TestField::from_u64(P as u64), 0);
    assert_eq!(U32TestField::from_u64(u64::MAX), (u64::MAX % P as u64) as u32);
}

#[test]
fn from_base_type_and_representative_are_canonical() {
    assert_eq!(U32TestField::from_base_type(P + 3), 3);
    assert_eq!(U32TestField::representative(&(P + 3)), 3);
    assert_eq!(U32TestField::representative(&7), 7);
}

#[test]
fn other_moduli_work_too() {
    assert_eq!(U32Field::<17>::add(&16, &5), 4);
    assert_eq!(U32Field::<17>::mul(&5, &7), 1);
    assert_eq!(U32Field::<17>::inv(&5), 7);
    assert_eq!(U32Field::<17>::field_bit_size(), 5);
    assert_eq!(U32Field::<2>::field_bit_size(), 1);
    assert_eq!(U32Field::<4294967295>::field_bit_size(), 32);
}

#[test]
fn ring_laws_on_sample_values() {
    let xs = [0u32, 1, 2, 1000003, P - 1, 440564289];
    for &a in &xs {
        for &b in &xs {
            assert_eq!(U32TestField::add(&a, &b), U32TestField::add(&b, &a));
            assert_eq!(U32TestField::mul(&a, &b), U32TestField::mul(&b, &a));
            for &c in &xs {
                let left = U32TestField::mul(&a, &U32TestField::add(&b, &c));
                let right = U32TestField::add(&U32TestField::mul(&a, &b), &U32TestField::mul(&a, &c));
                assert_eq!(left, right);
            }
        }
    }
}
