use lambdaworks_stark::coset::Coset;
use lambdaworks_stark::errors::FFTError;
use lambdaworks_stark::evaluation::evaluate;
use lambdaworks_stark::field::U32TestField;
use lambdaworks_stark::fri::evaluate_on_coset;
use lambdaworks_stark::fri::fold_polynomial;
use lambdaworks_stark::fri::fold_values;
use lambdaworks_stark::fri::fri_commit_phase;
use lambdaworks_stark::fri::fri_decommit_layers;
use lambdaworks_stark::fri::fri_sample_betas;
use lambdaworks_stark::fri::fri_verify_query;
use lambdaworks_stark::fri::interpolate_on_coset;
use lambdaworks_stark::fri::FriCommitment;
use lambdaworks_stark::transcript::Transcript;

const P: u32 = 2013265921;

fn commit(coeffs: &[u32], order: u64, offset: u32) -> (FriCommitment, Coset, Vec<u32>, Vec<u32>) {
    let coset = Coset::new(order, offset).unwrap();
    let mut transcript = Transcript::new();
    let commitment = fri_commit_phase(coeffs, &coset, &mut transcript);
    let roots: Vec<u32> = commitment.layers.iter().map(|l| l.merkle_tree.root).collect();
    let betas: Vec<u32> = commitment.layers.iter().map(|l| l.beta).collect();
    (commitment, coset, roots, betas)
}

#[test]
fn folding_a_cubic_over_a_domain_of_sixteen() {
    // P(X) = 3 X^3 + 2 X^2 + X + 5
    let (commitment, coset, roots, betas) = commit(&[5, 1, 2, 3], 4, 31);
    assert_eq!(commitment.layers.len(), 4);
    assert_eq!(commitment.layers[0].evaluations.len(), 16);
    assert_eq!(commitment.layers[1].evaluations.len(), 8);
    assert_eq!(commitment.layers[2].evaluations.len(), 4);
    assert_eq!(commitment.layers[3].evaluations.len(), 2);
    assert_eq!(roots.len(), 4);
    // the first fold leaves (5 + b0) + (2 + 3 b0) Y, the second a constant
    let b0 = betas[0];
    let low = U32TestField::add(&5, &b0);
    let high = U32TestField::add(&2, &U32TestField::mul(&3, &b0));
    let squares = coset.squared();
    for j in 0..8 {
        assert_eq!(commitment.layers[1].evaluations[j], evaluate(&[low, high], squares.point(j)));
    }
    let constant = U32TestField::add(&low, &U32TestField::mul(&betas[1], &high));
    assert_eq!(commitment.layers[2].evaluations, vec![constant; 4]);
    assert_eq!(commitment.layers[3].evaluations, vec![constant; 2]);
    assert_eq!(commitment.last_value, constant);
    for index in 0..16 {
        let openings = fri_decommit_layers(&commitment, index);
        assert!(fri_verify_query(&roots, &betas, commitment.last_value, &coset, index, &openings));
    }
}

#[test]
fn swapping_the_folding_coefficient_of_layer_one_is_rejected() {
    let (commitment, coset, roots, betas) = commit(&[5, 1, 2, 3], 4, 31);
    let mut swapped = betas.clone();
    swapped[1] = U32TestField::add(&swapped[1], &1);
    for index in 0..16 {
        let openings = fri_decommit_layers(&commitment, index);
        assert!(!fri_verify_query(&roots, &swapped, commitment.last_value, &coset, index, &openings));
    }
}

#[test]
fn the_verifier_draws_the_folding_coefficients_of_the_prover() {
    let (commitment, _, roots, betas) = commit(&[5, 1, 2, 3, 9, 9, 9, 9], 5, 3);
    let mut transcript = Transcript::new();
    assert_eq!(fri_sample_betas(&roots, &mut transcript), betas);
    assert_eq!(commitment.layers.len(), 5);
}

#[test]
fn a_changed_root_value_or_constant_is_rejected() {
    let (commitment, coset, roots, betas) = commit(&[5, 1, 2, 3, 4, 4, 4, 4], 6, 31);
    let index = 37;
    let openings = fri_decommit_layers(&commitment, index);
    assert!(fri_verify_query(&roots, &betas, commitment.last_value, &coset, index, &openings));

    for j in 0..roots.len() {
        let mut changed = roots.clone();
        changed[j] ^= 1;
        assert!(!fri_verify_query(&changed, &betas, commitment.last_value, &coset, index, &openings));
    }
    let changed_last = U32TestField::add(&commitment.last_value, &1);
    assert!(!fri_verify_query(&roots, &betas, changed_last, &coset, index, &openings));

    for j in 0..openings.layer_merkle_paths.len() {
        let mut changed = openings.clone();
        changed.layer_merkle_paths[j].0.value = U32TestField::add(&changed.layer_merkle_paths[j].0.value, &1);
        assert!(!fri_verify_query(&roots, &betas, commitment.last_value, &coset, index, &changed));
        let mut changed = openings.clone();
        changed.layer_merkle_paths[j].1.value = U32TestField::add(&changed.layer_merkle_paths[j].1.value, &1);
        assert!(!fri_verify_query(&roots, &betas, commitment.last_value, &coset, index, &changed));
    }
    assert!(!fri_verify_query(&roots, &betas, commitment.last_value, &coset, index + 1, &openings));
}

#[test]
fn openings_of_the_wrong_shape_are_rejected() {
    let (commitment, coset, roots, betas) = commit(&[5, 1, 2, 3], 4, 31);
    let openings = fri_decommit_layers(&commitment, 3);
    let mut short = openings.clone();
    short.layer_merkle_paths.pop();
    assert!(!fri_verify_query(&roots, &betas, commitment.last_value, &coset, 3, &short));
    assert!(!fri_verify_query(&roots[..1], &betas, commitment.last_value, &coset, 3, &openings));
    assert!(!fri_verify_query(&roots, &betas[..1], commitment.last_value, &coset, 3, &openings));
}

#[test]
fn a_constant_stays_the_same_through_every_round() {
    let (commitment, coset, roots, betas) = commit(&[42], 3, 31);
    assert_eq!(commitment.layers.len(), 3);
    assert_eq!(commitment.layers[0].evaluations, vec![42; 8]);
    assert_eq!(commitment.layers[1].evaluations, vec![42; 4]);
    assert_eq!(commitment.layers[2].evaluations, vec![42; 2]);
    assert_eq!(commitment.last_value, 42);
    let openings = fri_decommit_layers(&commitment, 5);
    assert!(fri_verify_query(&roots, &betas, 42, &coset, 5, &openings));
}

#[test]
fn fold_polynomial_combines_even_and_odd_coefficients() {
    assert_eq!(fold_polynomial(&[5, 1, 2, 3], 10), vec![15, 32]);
    assert_eq!(fold_polynomial(&[1, P - 1], 1), vec![0]);
    assert_eq!(fold_polynomial(&[], 7), Vec::<u32>::new());
}

#[test]
fn fold_values_agrees_with_the_folded_polynomial() {
    let c = [5u32, 1, 2, 3, 8, 13, 21, 34];
    let beta = 1234567;
    let folded = fold_polynomial(&c, beta);
    for z in [1u32, 2, 3, 31, 1000, P - 2] {
        let z_inv = U32TestField::inv(&z);
        let a = evaluate(&c, z);
        let b = evaluate(&c, U32TestField::neg(&z));
        assert_eq!(fold_values(a, b, z_inv, beta), evaluate(&folded, U32TestField::mul(&z, &z)));
    }
}

#[test]
fn coset_points_and_their_inverses() {
    let coset = Coset::new(4, 31).unwrap();
    assert_eq!(coset.size, 16);
    assert_eq!(coset.order, 4);
    assert_eq!(coset.offset, 31);
    assert_eq!(coset.point(0), 31);
    for j in 0..16 {
        assert_eq!(U32TestField::mul(&coset.point(j), &coset.point_inv(j)), 1);
        assert_eq!(coset.point((j + 8) % 16), U32TestField::neg(&coset.point(j)));
    }
    let squares = coset.squared();
    assert_eq!(squares.size, 8);
    assert_eq!(squares.offset, 961);
    for j in 0..16 {
        let z = coset.point(j);
        assert_eq!(squares.point(j % 8), U32TestField::mul(&z, &z));
    }
}

#[test]
fn coset_is_refused_for_a_large_order_or_a_zero_offset() {
    assert_eq!(Coset::new(28, 3), Err(FFTError::RootOfUnityError(28)));
    assert_eq!(Coset::new(4, 0), Err(FFTError::OffsetError(0)));
    assert_eq!(Coset::new(4, P), Err(FFTError::OffsetError(P)));
    assert_eq!(Coset::new(28, 0), Err(FFTError::RootOfUnityError(28)));
}

#[test]
fn evaluation_on_a_coset_and_interpolation_undo_each_other() {
    let coset = Coset::new(3, 7).unwrap();
    let coeffs = [5u32, 1, 2, 3];
    let values = evaluate_on_coset(&coeffs, &coset);
    assert_eq!(values.len(), 8);
    for j in 0..8 {
        assert_eq!(values[j], evaluate(&coeffs, coset.point(j)));
    }
    assert_eq!(interpolate_on_coset(&values, &coset), vec![5, 1, 2, 3, 0, 0, 0, 0]);
}
