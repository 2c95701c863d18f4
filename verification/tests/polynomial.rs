use lambdaworks_stark::air::AirContext;
use lambdaworks_stark::air::ProofOptions;
use lambdaworks_stark::air::AIR;
use lambdaworks_stark::computations::CounterAIR;
use lambdaworks_stark::computations::FibonacciAIR;
use lambdaworks_stark::divisors::transition_divisors;
use lambdaworks_stark::errors::StarkError;
use lambdaworks_stark::field::U32TestField;
use lambdaworks_stark::polynomial::compose;
use lambdaworks_stark::polynomial::Polynomial;
use lambdaworks_stark::roots_of_unity::get_primitive_root_of_unity;

const P: u32 = 2013265921;

fn poly(c: &[u32]) -> Polynomial {
    Polynomial::new(c)
}

#[test]
fn new_reduces_and_trims() {
    assert_eq!(poly(&[1, 2, 0, 0]).coefficients, vec![1, 2]);
    assert_eq!(poly(&[0, 0, 0]).coefficients, Vec::<u32>::new());
    assert_eq!(poly(&[P + 1, P, 5, P]).coefficients, vec![1, 0, 5]);
    assert_eq!(poly(&[]).coefficients, Vec::<u32>::new());
}

#[test]
fn degree_of_zero_is_none() {
    assert_eq!(Polynomial::zero().degree(), None);
    assert_eq!(poly(&[7]).degree(), Some(0));
    assert_eq!(poly(&[5, 1, 2, 3]).degree(), Some(3));
    assert_eq!(poly(&[5, 1, 2, 3]).leading_coefficient(), 3);
    assert_eq!(Polynomial::zero().leading_coefficient(), 0);
}

#[test]
fn monomials() {
    assert_eq!(Polynomial::new_monomial(3, 2).coefficients, vec![0, 0, 3]);
    assert_eq!(Polynomial::new_monomial(1, 0).coefficients, vec![1]);
    assert_eq!(Polynomial::new_monomial(0, 5).coefficients, Vec::<u32>::new());
    assert_eq!(Polynomial::new_monomial(P, 5).coefficients, Vec::<u32>::new());
    assert_eq!(Polynomial::new_monomial(3, 2).evaluate(&10), 300);
}

#[test]
fn evaluate_a_cubic() {
    let c = poly(&[5, 1, 2, 3]);
    assert_eq!(c.evaluate(&2), 39);
    assert_eq!(c.evaluate(&10), 3215);
    assert_eq!(c.evaluate_slice(&[0, 1, 2]), vec![5, 11, 39]);
    assert_eq!(Polynomial::zero().evaluate(&12345), 0);
}

#[test]
fn add_and_sub_cancel_leading_terms() {
    let a = poly(&[1, 2, 3]);
    let b = poly(&[4, 5, P - 3]);
    assert_eq!(a.add(&b).coefficients, vec![5, 7]);
    assert_eq!(a.sub(&a).coefficients, Vec::<u32>::new());
    assert_eq!(a.sub(&b).coefficients, vec![P - 3, P - 3, 6]);
    assert_eq!(a.add(&Polynomial::zero()), a);
    assert_eq!(Polynomial::zero().sub(&poly(&[1])).coefficients, vec![P - 1]);
}

#[test]
fn mul_is_the_convolution() {
    // (1 + X)(1 - X) = 1 - X^2
    assert_eq!(poly(&[1, 1]).mul(&poly(&[1, P - 1])).coefficients, vec![1, 0, P - 1]);
    // (5 + X + 2 X^2 + 3 X^3)(2 + X) = 10 + 7 X + 5 X^2 + 8 X^3 + 3 X^4
    assert_eq!(poly(&[5, 1, 2, 3]).mul(&poly(&[2, 1])).coefficients, vec![10, 7, 5, 8, 3]);
    assert_eq!(poly(&[5, 1]).mul(&Polynomial::zero()).coefficients, Vec::<u32>::new());
    assert_eq!(Polynomial::zero().mul(&poly(&[5, 1])).coefficients, Vec::<u32>::new());
}

#[test]
fn arithmetic_commutes_with_evaluation() {
    let a = poly(&[5, 1, 2, 3, 99]);
    let b = poly(&[7, 0, 11]);
    for x in [0u32, 1, 2, 31, 12345, P - 1] {
        let (ea, eb) = (a.evaluate(&x), b.evaluate(&x));
        assert_eq!(a.add(&b).evaluate(&x), U32TestField::add(&ea, &eb));
        assert_eq!(a.sub(&b).evaluate(&x), U32TestField::sub(&ea, &eb));
        assert_eq!(a.mul(&b).evaluate(&x), U32TestField::mul(&ea, &eb));
        assert_eq!(compose(&a, &b).evaluate(&x), a.evaluate(&eb));
    }
}

#[test]
fn compose_has_the_product_of_the_degrees() {
    let a = poly(&[5, 1, 2, 3]);
    let b = poly(&[7, 0, 11]);
    assert_eq!(compose(&a, &b).degree(), Some(6));
    // (X + 1) o (X^2) = X^2 + 1
    assert_eq!(compose(&poly(&[1, 1]), &poly(&[0, 0, 1])).coefficients, vec![1, 0, 1]);
    assert_eq!(compose(&Polynomial::zero(), &b).coefficients, Vec::<u32>::new());
    assert_eq!(compose(&a, &Polynomial::zero()).coefficients, vec![5]);
}

#[test]
fn long_division_with_remainder() {
    // X^3 - 1 = (X - 1)(X^2 + X + 1)
    let a = poly(&[P - 1, 0, 0, 1]);
    let d = poly(&[P - 1, 1]);
    let (q, r) = a.long_division_with_remainder(&d).unwrap();
    assert_eq!(q.coefficients, vec![1, 1, 1]);
    assert_eq!(r.coefficients, Vec::<u32>::new());
    // 3 X^3 + 2 X^2 + X + 5 = (2 X + 1)(...) + r
    let a = poly(&[5, 1, 2, 3]);
    let d = poly(&[1, 2]);
    let (q, r) = a.long_division_with_remainder(&d).unwrap();
    assert_eq!(r.coefficients.len(), 1);
    assert_eq!(q.mul(&d).add(&r), a);
    // a divisor of higher degree
    let (q, r) = d.long_division_with_remainder(&a).unwrap();
    assert_eq!(q, Polynomial::zero());
    assert_eq!(r, d);
    assert_eq!(a.div(&poly(&[0, 1])).unwrap().coefficients, vec![1, 2, 3]);
}

#[test]
fn there_is_no_division_by_zero() {
    let a = poly(&[5, 1, 2, 3]);
    assert_eq!(a.long_division_with_remainder(&Polynomial::zero()), None);
    assert_eq!(a.div(&poly(&[P, P])), None);
}

#[test]
fn interpolate_through_the_nodes() {
    let xs = [1u32, 2, 3, 10];
    let ys = [11u32, 39, 107, 3215];
    let l = Polynomial::interpolate(&xs, &ys).unwrap();
    assert_eq!(l.coefficients, vec![5, 1, 2, 3]);
    for i in 0..4 {
        assert_eq!(l.evaluate(&xs[i]), ys[i]);
    }
}

#[test]
fn interpolate_needs_distinct_nodes_and_as_many_values() {
    assert_eq!(Polynomial::interpolate(&[1, 2, 1], &[5, 6, 7]), None);
    assert_eq!(Polynomial::interpolate(&[1, P + 1], &[5, 6]), None);
    assert_eq!(Polynomial::interpolate(&[1, 2], &[5]), None);
    assert_eq!(Polynomial::interpolate(&[], &[]), Some(Polynomial::zero()));
    assert_eq!(Polynomial::interpolate(&[9], &[4]).unwrap().coefficients, vec![4]);
}

#[test]
fn interpolate_random_values() {
    let xs: Vec<u32> = (0..12u32).map(|i| i * i + 5).collect();
    let ys: Vec<u32> = (0..12u32).map(|i| (i * 7919 + 13) % 1000).collect();
    let l = Polynomial::interpolate(&xs, &ys).unwrap();
    assert!(l.coefficients.len() <= 12);
    for i in 0..12 {
        assert_eq!(l.evaluate(&xs[i]), ys[i]);
    }
}

fn options() -> ProofOptions {
    ProofOptions { blowup_factor: 4, fri_number_of_queries: 1, coset_offset: 31, grinding_factor: 0 }
}

#[test]
fn transition_divisor_vanishes_on_the_rows_without_exemption() {
    let air = CounterAIR { trace_length: 16, options: options(), start: 0 };
    let divisors = air.transition_divisors().unwrap();
    assert_eq!(divisors.len(), 1);
    let d = &divisors[0];
    assert_eq!(d.degree(), Some(15));
    let w = get_primitive_root_of_unity(4).unwrap();
    for row in 0..15u64 {
        assert_eq!(d.evaluate(&U32TestField::pow(&w, row)), 0);
    }
    assert_ne!(d.evaluate(&U32TestField::pow(&w, 15)), 0);
    // d(x) * (x - w^15) = x^16 - 1
    for x in [2u32, 3, 12345] {
        let factor = U32TestField::sub(&x, &U32TestField::pow(&w, 15));
        let expected = U32TestField::sub(&U32TestField::pow(&x, 16), &1);
        assert_eq!(U32TestField::mul(&d.evaluate(&x), &factor), expected);
    }
}

#[test]
fn transition_divisor_with_two_exemptions() {
    let air = FibonacciAIR { trace_length: 32, options: options(), first: 1, second: 1 };
    let divisors = transition_divisors(&air.context()).unwrap();
    assert_eq!(divisors.len(), 1);
    assert_eq!(divisors[0].degree(), Some(30));
}

#[test]
fn transition_divisor_without_exemptions_is_the_vanishing_polynomial() {
    let ctx = AirContext {
        options: options(),
        trace_length: 4,
        trace_columns: 1,
        transition_degrees: vec![1, 2],
        transition_exemptions: vec![],
        num_transition_constraints: 2,
    };
    let divisors = transition_divisors(&ctx).unwrap();
    assert_eq!(divisors.len(), 2);
    assert_eq!(divisors[0].coefficients, vec![P - 1, 0, 0, 0, 1]);
    assert_eq!(divisors[1], divisors[0]);
}

#[test]
fn a_row_exempted_twice_has_no_divisor() {
    let ctx = AirContext {
        options: options(),
        trace_length: 4,
        trace_columns: 1,
        transition_degrees: vec![1],
        transition_exemptions: vec![3, 3],
        num_transition_constraints: 1,
    };
    assert_eq!(transition_divisors(&ctx), Err(StarkError::AIRTransitionDivisorsError));
    let mut bad = ctx.clone();
    bad.trace_columns = 0;
    assert_eq!(transition_divisors(&bad), Err(StarkError::AIRTraceColumnsError));
}

#[test]
fn any_single_exempted_row_has_a_divisor() {
    let w = get_primitive_root_of_unity(4).unwrap();
    for row in 0..16usize {
        let ctx = AirContext {
            options: options(),
            trace_length: 16,
            trace_columns: 1,
            transition_degrees: vec![1],
            transition_exemptions: vec![row],
            num_transition_constraints: 1,
        };
        let divisors = transition_divisors(&ctx).unwrap();
        assert_eq!(divisors.len(), 1);
        assert_eq!(divisors[0].degree(), Some(15));
        assert_eq!(divisors[0].leading_coefficient(), 1);
        for other in 0..16usize {
            let value = divisors[0].evaluate(&U32TestField::pow(&w, other as u64));
            assert_eq!(value == 0, other != row);
        }
    }
}
