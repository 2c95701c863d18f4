use lambdaworks_stark::air::AirContext;
use lambdaworks_stark::air::Frame;
use lambdaworks_stark::air::ProofOptions;
use lambdaworks_stark::air::TraceTable;
use lambdaworks_stark::air::AIR;
use lambdaworks_stark::computations::CounterAIR;
use lambdaworks_stark::computations::FibonacciAIR;
use lambdaworks_stark::computations::IdentityAIR;
use lambdaworks_stark::computations::TwoColumnFibonacciAIR;
use lambdaworks_stark::domain::Domain;
use lambdaworks_stark::errors::FFTError;
use lambdaworks_stark::errors::StarkError;
use lambdaworks_stark::field::U32TestField;
use lambdaworks_stark::polynomial::Polynomial;
use lambdaworks_stark::prover::fibonacci_trace;
use lambdaworks_stark::prover::generate_vec_roots;
use lambdaworks_stark::prover::get_composition_poly;
use lambdaworks_stark::prover::prove;
use lambdaworks_stark::prover::verify;
use lambdaworks_stark::evaluation::evaluate;
use lambdaworks_stark::evaluation::interpolate_fft;
use lambdaworks_stark::roots_of_unity::get_primitive_root_of_unity;
use lambdaworks_stark::stark_prover::prove_trace;
use lambdaworks_stark::stark_verifier::diagnose_proof;
use lambdaworks_stark::stark_verifier::draw_point;
use lambdaworks_stark::stark_verifier::verify_proof;
use lambdaworks_stark::transcript::Transcript;

const P: u32 = 2013265921;

fn options(blowup: u8, queries: usize) -> ProofOptions {
    ProofOptions {
        blowup_factor: blowup,
        fri_number_of_queries: queries,
        coset_offset: 31,
        grinding_factor: 0,
    }
}

#[test]
fn test_prove() {
    let result = prove([1, 1]).unwrap();
    assert!(verify(result, [1, 1]));
}

#[test]
fn fibonacci_proof_has_the_announced_shape() {
    let proof = prove([1, 1]).unwrap();
    assert_eq!(proof.query_openings.len(), 3);
    assert_eq!(proof.fri_layers_merkle_roots.len(), 10);
    assert_eq!(proof.trace_ood_evaluations.len(), 3);
    for opening in &proof.query_openings {
        assert_eq!(opening.trace_lde_poly_inclusion_proofs.len(), 3);
        assert_eq!(opening.fri_decommitment.layer_merkle_paths.len(), 10);
        for (j, pair) in opening.fri_decommitment.layer_merkle_paths.iter().enumerate() {
            assert_eq!(pair.0.merkle_path.len(), 10 - j);
            assert_eq!(pair.1.merkle_path.len(), 10 - j);
        }
    }
}

#[test]
fn fibonacci_proof_is_bound_to_the_public_inputs() {
    let proof = prove([1, 1]).unwrap();
    assert!(!verify(proof.clone(), [1, 2]));
    assert!(!verify(proof, [2, 1]));
}

#[test]
fn two_runs_give_the_same_proof() {
    assert_eq!(prove([1, 1]).unwrap(), prove([1, 1]).unwrap());
    assert_ne!(prove([1, 1]).unwrap(), prove([1, 2]).unwrap());
}

#[test]
fn a_changed_fibonacci_proof_is_rejected() {
    let proof = prove([1, 1]).unwrap();

    let mut changed = proof.clone();
    changed.trace_lde_poly_root ^= 1;
    assert!(!verify(changed, [1, 1]));

    let mut changed = proof.clone();
    changed.composition_even_root ^= 1;
    assert!(!verify(changed, [1, 1]));

    let mut changed = proof.clone();
    changed.composition_odd_root ^= 1;
    assert!(!verify(changed, [1, 1]));

    for t in 0..proof.trace_ood_evaluations.len() {
        let mut changed = proof.clone();
        changed.trace_ood_evaluations[t] ^= 1;
        assert!(!verify(changed, [1, 1]));
    }

    let mut changed = proof.clone();
    changed.composition_even_ood ^= 1;
    assert!(!verify(changed, [1, 1]));

    let mut changed = proof.clone();
    changed.composition_odd_ood ^= 1;
    assert!(!verify(changed, [1, 1]));

    for j in 0..proof.fri_layers_merkle_roots.len() {
        let mut changed = proof.clone();
        changed.fri_layers_merkle_roots[j] ^= 1;
        assert!(!verify(changed, [1, 1]));
    }

    let mut changed = proof.clone();
    changed.fri_last_value ^= 1;
    assert!(!verify(changed, [1, 1]));

    for i in 0..proof.query_openings.len() {
        for t in 0..3 {
            let mut changed = proof.clone();
            changed.query_openings[i].trace_lde_poly_inclusion_proofs[t].value ^= 1;
            assert!(!verify(changed, [1, 1]));
            let mut changed = proof.clone();
            changed.query_openings[i].trace_lde_poly_inclusion_proofs[t].merkle_path[0] ^= 1;
            assert!(!verify(changed, [1, 1]));
        }
        let mut changed = proof.clone();
        changed.query_openings[i].composition_even_proof.value ^= 1;
        assert!(!verify(changed, [1, 1]));
        let mut changed = proof.clone();
        changed.query_openings[i].composition_odd_proof.index ^= 1;
        assert!(!verify(changed, [1, 1]));
        let mut changed = proof.clone();
        changed.query_openings[i].fri_decommitment.layer_merkle_paths[2].1.value ^= 1;
        assert!(!verify(changed, [1, 1]));
    }

    let mut changed = proof.clone();
    changed.query_openings.pop();
    assert!(!verify(changed, [1, 1]));

    let mut changed = proof.clone();
    changed.fri_layers_merkle_roots.pop();
    assert!(!verify(changed, [1, 1]));
}

#[test]
fn identity_trace_verifies() {
    let air = IdentityAIR { trace_length: 8, options: options(4, 3), first: 5 };
    let trace = TraceTable::new(vec![vec![5; 8]]).unwrap();
    let proof = prove_trace(&air, &trace).unwrap();
    assert!(verify_proof(&air, &proof));
}

#[test]
fn identity_trace_with_a_corrupted_first_row_is_not_proved() {
    let air = IdentityAIR { trace_length: 8, options: options(4, 3), first: 5 };
    let mut column = vec![5u32; 8];
    column[0] = 6;
    let trace = TraceTable::new(vec![column]).unwrap();
    assert_eq!(prove_trace(&air, &trace), Err(StarkError::ConstraintDegreeMismatch));

    // the proof of the valid trace does not pass for the corrupted claim
    let good = TraceTable::new(vec![vec![5; 8]]).unwrap();
    let proof = prove_trace(&air, &good).unwrap();
    let other = IdentityAIR { trace_length: 8, options: options(4, 3), first: 6 };
    assert!(!verify_proof(&other, &proof));
}

#[test]
fn counter_trace_verifies() {
    let air = CounterAIR { trace_length: 16, options: options(8, 4), start: 3 };
    assert_eq!(air.context().transition_exemptions, vec![15]);
    let trace = TraceTable::new(vec![(3..19).collect()]).unwrap();
    let proof = prove_trace(&air, &trace).unwrap();
    assert!(verify_proof(&air, &proof));
}

#[test]
fn counter_trace_that_skips_is_not_proved() {
    let air = CounterAIR { trace_length: 16, options: options(8, 4), start: 3 };
    let mut column: Vec<u32> = (3..19).collect();
    column[9] += 1;
    let trace = TraceTable::new(vec![column]).unwrap();
    assert_eq!(prove_trace(&air, &trace), Err(StarkError::ConstraintDegreeMismatch));
}

#[test]
fn two_column_trace_verifies() {
    let mut c0 = vec![0u32];
    let mut c1 = vec![1u32];
    for i in 1..16 {
        let a = c1[i - 1];
        let b = U32TestField::add(&c0[i - 1], &c1[i - 1]);
        c0.push(a);
        c1.push(b);
    }
    let air = TwoColumnFibonacciAIR { trace_length: 16, options: options(4, 5), first: 0, second: 1 };
    let trace = TraceTable::new(vec![c0, c1]).unwrap();
    let proof = prove_trace(&air, &trace).unwrap();
    assert_eq!(proof.trace_ood_evaluations.len(), 6);
    assert!(verify_proof(&air, &proof));
}

#[test]
fn a_wrong_boundary_value_is_not_proved() {
    let air = FibonacciAIR { trace_length: 32, options: options(4, 2), first: 1, second: 2 };
    let trace = TraceTable::new(vec![fibonacci_trace([1, 1])]).unwrap();
    assert_eq!(prove_trace(&air, &trace), Err(StarkError::ConstraintDegreeMismatch));
}

#[test]
fn air_built_from_a_trace_takes_its_first_rows() {
    let trace = TraceTable::new(vec![fibonacci_trace([3, 4])]).unwrap();
    let context = FibonacciAIR { trace_length: 32, options: options(2, 1), first: 0, second: 0 }.context();
    let air = FibonacciAIR::new(trace.clone(), context);
    assert_eq!((air.first, air.second), (3, 4));
    assert_eq!(air.blowup_factor(), 2);
    assert_eq!(air.options(), options(2, 1));
    let proof = prove_trace(&air, &trace).unwrap();
    assert!(verify_proof(&air, &proof));
}

#[test]
fn the_prover_refuses_a_context_that_is_not_valid() {
    let trace = TraceTable::new(vec![vec![5; 8]]).unwrap();
    let air = IdentityAIR { trace_length: 8, options: options(3, 3), first: 5 };
    assert_eq!(prove_trace(&air, &trace), Err(StarkError::NonPowerOfTwoLength));
    let air = IdentityAIR { trace_length: 8, options: options(1, 3), first: 5 };
    assert_eq!(prove_trace(&air, &trace), Err(StarkError::NonPowerOfTwoLength));
    let air = IdentityAIR { trace_length: 8, options: options(4, 0), first: 5 };
    assert_eq!(prove_trace(&air, &trace), Err(StarkError::TranscriptMismatch));
    let air = IdentityAIR { trace_length: 16, options: options(4, 3), first: 5 };
    assert_eq!(prove_trace(&air, &trace), Err(StarkError::InvalidTraceShape));
    let air = IdentityAIR { trace_length: 1 << 26, options: options(4, 3), first: 5 };
    assert_eq!(prove_trace(&air, &trace), Err(StarkError::DomainTooLarge));
    let mut zero_offset = options(4, 3);
    zero_offset.coset_offset = P as u64;
    let air = IdentityAIR { trace_length: 8, options: zero_offset, first: 5 };
    assert_eq!(
        prove_trace(&air, &trace),
        Err(StarkError::DomainCreationError(FFTError::OffsetError(0)))
    );
}

#[test]
fn the_verifier_rejects_under_a_context_without_queries() {
    let air = IdentityAIR { trace_length: 8, options: options(4, 3), first: 5 };
    let trace = TraceTable::new(vec![vec![5; 8]]).unwrap();
    let mut proof = prove_trace(&air, &trace).unwrap();
    proof.query_openings.clear();
    let none = IdentityAIR { trace_length: 8, options: options(4, 0), first: 5 };
    assert!(!verify_proof(&none, &proof));
}

#[test]
fn trace_table_shapes() {
    assert_eq!(TraceTable::new(vec![]), Err(StarkError::InvalidTraceShape));
    assert_eq!(TraceTable::new(vec![vec![1, 2], vec![1]]), Err(StarkError::InvalidTraceShape));
    assert_eq!(TraceTable::new(vec![vec![1, 2, 3]]), Err(StarkError::NonPowerOfTwoLength));
    assert_eq!(TraceTable::new(vec![vec![1]]), Err(StarkError::NonPowerOfTwoLength));
    assert_eq!(TraceTable::new(vec![vec![]]), Err(StarkError::NonPowerOfTwoLength));
    let t = TraceTable::new(vec![vec![1, 2, 3, 4], vec![5, 6, 7, 8]]).unwrap();
    assert_eq!(t.n_rows(), 4);
    assert_eq!(t.n_cols(), 2);
    assert_eq!(t.get(2, 1), 7);
}

#[test]
fn context_defects_in_order() {
    let good = AirContext {
        options: options(4, 3),
        trace_length: 8,
        trace_columns: 1,
        transition_degrees: vec![1],
        transition_exemptions: vec![7],
        num_transition_constraints: 1,
    };
    assert_eq!(good.validate(), Ok(()));
    let mut c = good.clone();
    c.trace_columns = 0;
    assert_eq!(c.validate(), Err(StarkError::AIRTraceColumnsError));
    let mut c = good.clone();
    c.trace_length = 12;
    assert_eq!(c.validate(), Err(StarkError::NonPowerOfTwoLength));
    let mut c = good.clone();
    c.trace_columns = 17;
    assert_eq!(c.validate(), Err(StarkError::InvalidTraceShape));
    let mut c = good.clone();
    c.transition_degrees = vec![3];
    assert_eq!(c.validate(), Err(StarkError::AIRTransitionDegreesError));
    let mut c = good.clone();
    c.transition_degrees = vec![];
    assert_eq!(c.validate(), Err(StarkError::AIRTransitionDegreesError));
    let mut c = good.clone();
    c.transition_exemptions = vec![8];
    assert_eq!(c.validate(), Err(StarkError::AIRTransitionDivisorsError));
    let mut c = good.clone();
    c.options.fri_number_of_queries = 0;
    assert_eq!(c.validate(), Err(StarkError::TranscriptMismatch));
    let mut c = good.clone();
    c.options.fri_number_of_queries = 65537;
    assert_eq!(c.validate(), Err(StarkError::TranscriptMismatch));
    let mut c = good.clone();
    c.options.fri_number_of_queries = 65536;
    c.trace_columns = 15;
    assert_eq!(c.validate(), Ok(()));
    let mut c = good.clone();
    c.trace_columns = 16;
    assert_eq!(c.validate(), Err(StarkError::InvalidTraceShape));
}

#[test]
fn frame_holds_three_rows() {
    assert!(Frame::new(vec![1, 2, 3], 2).is_none());
    let f = Frame::new(vec![1, 2, 3, 4, 5, 6], 2).unwrap();
    assert_eq!(f.get(0, 0), 1);
    assert_eq!(f.get(1, 0), 3);
    assert_eq!(f.get(2, 1), 6);
}

#[test]
fn transitions_vanish_on_valid_windows() {
    let fib = FibonacciAIR { trace_length: 32, options: options(2, 1), first: 1, second: 1 };
    let f = Frame::new(vec![3, 5, 8], 1).unwrap();
    assert_eq!(fib.compute_transition(&f), vec![0]);
    let f = Frame::new(vec![3, 5, 9], 1).unwrap();
    assert_eq!(fib.compute_transition(&f), vec![1]);
    let counter = CounterAIR { trace_length: 16, options: options(2, 1), start: 0 };
    let f = Frame::new(vec![7, 8, 9], 1).unwrap();
    assert_eq!(counter.compute_transition(&f), vec![0]);
    let two = TwoColumnFibonacciAIR { trace_length: 16, options: options(2, 1), first: 0, second: 1 };
    let f = Frame::new(vec![2, 3, 3, 5, 5, 8], 2).unwrap();
    assert_eq!(two.compute_transition(&f), vec![0, 0]);
    let f = Frame::new(vec![2, 3, 4, 5, 5, 8], 2).unwrap();
    assert_eq!(two.compute_transition(&f), vec![1, 0]);
}

#[test]
fn fibonacci_trace_of_32_terms() {
    let t = fibonacci_trace([1, 1]);
    assert_eq!(t.len(), 32);
    assert_eq!(t[0], 1);
    assert_eq!(t[1], 1);
    assert_eq!(t[10], 89);
    assert_eq!(t[31], 2178309);
    let t = fibonacci_trace([P - 1, 2]);
    assert_eq!(t[2], 1);
}

#[test]
fn generated_roots_are_the_coset_of_the_subgroup() {
    let (roots, generator) = generate_vec_roots(4, 3);
    assert_eq!(generator, 1728404513);
    assert_eq!(roots, vec![3, 1158681697, 2013265918, 854584224]);
    let (roots, generator) = generate_vec_roots(1024, 1);
    assert_eq!(generator, get_primitive_root_of_unity(10).unwrap());
    assert_eq!(roots.len(), 1024);
    assert_eq!(roots[0], 1);
    assert_eq!(roots[512], P - 1);
}

#[test]
fn composition_poly_vanishes_on_a_fibonacci_trace() {
    let trace = fibonacci_trace([1, 1]);
    let poly = interpolate_fft(&trace).unwrap();
    let w = get_primitive_root_of_unity(5).unwrap();
    let composition = get_composition_poly(&Polynomial::new(&poly), &w);
    assert_ne!(composition.coefficients.last(), Some(&0));
    let composition = composition.coefficients;
    for i in 0..30u64 {
        assert_eq!(evaluate(&composition, U32TestField::pow(&w, i)), 0);
    }
    assert_ne!(evaluate(&composition, U32TestField::pow(&w, 30)), 0);
    let x = 12345u32;
    let w2 = U32TestField::mul(&w, &w);
    let expected = U32TestField::sub(
        &U32TestField::sub(
            &evaluate(&poly, U32TestField::mul(&w2, &x)),
            &evaluate(&poly, U32TestField::mul(&w, &x)),
        ),
        &evaluate(&poly, x),
    );
    assert_eq!(evaluate(&composition, x), expected);
}

#[test]
fn composition_poly_has_no_trailing_zero() {
    // w^2 = w + 1, so that t(w^2 X) - t(w X) - t(X) is zero for t = X
    let w = 552648637u32;
    assert_eq!(U32TestField::mul(&w, &w), w + 1);
    let zero = get_composition_poly(&Polynomial::new(&[0, 1]), &w);
    assert_eq!(zero.coefficients, Vec::<u32>::new());
    assert_eq!(zero.degree(), None);
    // t = 7 + X + X^2 gives -7 + 0 X + (w^4 - w^2 - 1) X^2
    let c = get_composition_poly(&Polynomial::new(&[7, 1, 1]), &w);
    let w4 = U32TestField::pow(&w, 4);
    let lead = U32TestField::sub(&U32TestField::sub(&w4, &(w + 1)), &1);
    assert_eq!(c.coefficients, vec![P - 7, 0, lead]);
    // t = 7 + X gives the constant -7
    let c = get_composition_poly(&Polynomial::new(&[7, 1]), &w);
    assert_eq!(c.coefficients, vec![P - 7]);
    // coefficient i is (w^(2i) - w^i - 1) t_i
    let c = get_composition_poly(&Polynomial::new(&[1, 2, 3]), &2);
    assert_eq!(c.coefficients, vec![P - 1, 2, 33]);
}

#[test]
fn the_verifier_says_why_it_rejects() {
    let air = IdentityAIR { trace_length: 8, options: options(4, 3), first: 5 };
    let trace = TraceTable::new(vec![vec![5; 8]]).unwrap();
    let proof = prove_trace(&air, &trace).unwrap();
    assert_eq!(diagnose_proof(&air, &proof), Ok(()));

    let mut changed = proof.clone();
    changed.query_openings[0].trace_lde_poly_inclusion_proofs[1].merkle_path[0] ^= 1;
    assert_eq!(diagnose_proof(&air, &changed), Err(StarkError::MerkleProofInvalid));

    let mut changed = proof.clone();
    changed.query_openings[1].composition_even_proof.index ^= 1;
    assert_eq!(diagnose_proof(&air, &changed), Err(StarkError::MerkleProofInvalid));

    let mut changed = proof.clone();
    changed.query_openings.pop();
    assert_eq!(diagnose_proof(&air, &changed), Err(StarkError::TranscriptMismatch));

    let mut changed = proof.clone();
    changed.trace_ood_evaluations.push(0);
    assert_eq!(diagnose_proof(&air, &changed), Err(StarkError::TranscriptMismatch));

    let mut changed = proof.clone();
    changed.query_openings[0].fri_decommitment.layer_merkle_paths.clear();
    assert_eq!(diagnose_proof(&air, &changed), Err(StarkError::TranscriptMismatch));

    let mut changed = proof.clone();
    changed.query_openings[2].fri_decommitment.layer_merkle_paths[1].1.value ^= 1;
    assert_eq!(diagnose_proof(&air, &changed), Err(StarkError::FriFoldingInconsistent));

    let mut changed = proof.clone();
    changed.query_openings[0].fri_decommitment.layer_merkle_paths[0].0.value ^= 1;
    assert_eq!(diagnose_proof(&air, &changed), Err(StarkError::OutOfDomainViolation));

    // the proof is bound to the boundary value: the composition does not match
    let other = IdentityAIR { trace_length: 8, options: options(4, 3), first: 6 };
    assert_eq!(diagnose_proof(&other, &proof), Err(StarkError::ConstraintDegreeMismatch));

    let invalid = IdentityAIR { trace_length: 8, options: options(4, 0), first: 5 };
    assert_eq!(diagnose_proof(&invalid, &proof), Err(StarkError::TranscriptMismatch));
    let invalid = IdentityAIR { trace_length: 8, options: options(5, 3), first: 5 };
    assert_eq!(diagnose_proof(&invalid, &proof), Err(StarkError::NonPowerOfTwoLength));
}

#[test]
fn airs_built_from_a_trace() {
    let trace = TraceTable::new(vec![vec![7, 8, 9, 10], vec![1, 2, 3, 4]]).unwrap();
    let context = CounterAIR { trace_length: 4, options: options(2, 1), start: 0 }.context();
    let counter = CounterAIR::new(trace.clone(), context.clone());
    assert_eq!((counter.trace_length, counter.start), (4, 7));
    let identity = IdentityAIR::new(trace.clone(), context.clone());
    assert_eq!(identity.first, 7);
    let two = TwoColumnFibonacciAIR::new(trace, context);
    assert_eq!((two.first, two.second), (7, 1));
    assert_eq!(two.context().trace_columns, 2);
    assert_eq!(two.boundary_constraints().constraints.len(), 2);
}

#[test]
fn a_point_drawn_in_the_domain_is_given_up() {
    // a domain of 2^27 points holds one element of the field in fifteen
    let ctx = AirContext {
        options: options(2, 1),
        trace_length: 1 << 26,
        trace_columns: 1,
        transition_degrees: vec![1],
        transition_exemptions: vec![],
        num_transition_constraints: 1,
    };
    let domain = Domain::new(&ctx).unwrap();
    let n: u64 = 1 << 27;
    let hn = U32TestField::pow(&31, n);
    let mut given_up = 0;
    let mut kept = 0;
    for seed in 0..400u32 {
        let mut transcript = Transcript::new();
        transcript.absorb_field(seed);
        let mut replay = Transcript { state: transcript.state.clone() };
        let first = replay.challenge_field();
        let mut expected = first;
        while U32TestField::pow(&expected, n) == hn {
            expected = replay.challenge_field();
        }
        let z = draw_point(&mut transcript, &ctx, &domain);
        assert_eq!(z, expected);
        assert_ne!(U32TestField::pow(&z, n), hn);
        assert_eq!(transcript.state, replay.state);
        if z == first {
            kept += 1;
        } else {
            given_up += 1;
        }
    }
    assert!(given_up > 0);
    assert!(kept > given_up);
}

#[test]
fn a_trace_of_equal_rows_is_proved_for_every_value_and_length() {
    for (length, blowup) in [(2usize, 2u8), (4, 2), (8, 4), (16, 8)] {
        for value in [0u32, 1, 5, P - 1] {
            let air = IdentityAIR { trace_length: length, options: options(blowup, 2), first: value };
            let trace = TraceTable::new(vec![vec![value; length]]).unwrap();
            let proof = prove_trace(&air, &trace).unwrap();
            assert!(verify_proof(&air, &proof));
            assert_eq!(proof.fri_last_value, 0);
            assert_eq!(proof.composition_even_ood, 0);
            assert_eq!(proof.composition_odd_ood, 0);
            assert_eq!(proof.trace_ood_evaluations, vec![value; 3]);
        }
    }
}

#[test]
fn a_replaced_value_of_any_fri_layer_is_rejected() {
    let air = CounterAIR { trace_length: 16, options: options(8, 2), start: 3 };
    let trace = TraceTable::new(vec![(3..19).collect()]).unwrap();
    let proof = prove_trace(&air, &trace).unwrap();
    assert!(verify_proof(&air, &proof));
    assert_eq!(proof.fri_layers_merkle_roots.len(), 7);
    for i in 0..proof.query_openings.len() {
        for j in 0..7 {
            let mut changed = proof.clone();
            let value = &mut changed.query_openings[i].fri_decommitment.layer_merkle_paths[j].0.value;
            *value = U32TestField::add(value, &1);
            assert!(!verify_proof(&air, &changed));
        }
    }
    for j in 0..7 {
        let mut changed = proof.clone();
        changed.fri_layers_merkle_roots[j] = U32TestField::add(&changed.fri_layers_merkle_roots[j], &1);
        assert!(!verify_proof(&air, &changed));
    }
    let mut changed = proof.clone();
    changed.fri_last_value = U32TestField::add(&changed.fri_last_value, &1);
    assert!(!verify_proof(&air, &changed));
}
