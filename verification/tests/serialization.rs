use lambdaworks_stark::air::AIR;
use lambdaworks_stark::air::ProofOptions;
use lambdaworks_stark::air::TraceTable;
use lambdaworks_stark::back_end::stage_count;
use lambdaworks_stark::back_end::stage_dispatch;
use lambdaworks_stark::back_end::twiddle_count;
use lambdaworks_stark::back_end::twiddle_kernel;
use lambdaworks_stark::back_end::StageDispatch;
use lambdaworks_stark::computations::FibonacciAIR;
use lambdaworks_stark::computations::IdentityAIR;
use lambdaworks_stark::errors::FFTError;
use lambdaworks_stark::errors::StarkError;
use lambdaworks_stark::prover::prove;
use lambdaworks_stark::prover::verify;
use lambdaworks_stark::roots_of_unity::RootsConfig;
use lambdaworks_stark::serialization::bytes_to_words;
use lambdaworks_stark::serialization::element_from_bytes;
use lambdaworks_stark::serialization::words_to_bytes;
use lambdaworks_stark::stark_proof::StarkQueryProof;
use lambdaworks_stark::stark_prover::prove_trace;
use lambdaworks_stark::stark_verifier::verify_proof;

fn fibonacci_context() -> lambdaworks_stark::air::AirContext {
    FibonacciAIR {
        trace_length: 32,
        options: ProofOptions { blowup_factor: 32, fri_number_of_queries: 3, coset_offset: 31, grinding_factor: 0 },
        first: 1,
        second: 1,
    }
    .context()
}

#[test]
fn words_are_four_big_endian_bytes() {
    assert_eq!(words_to_bytes(&[1, 0x0102_0304]), vec![0, 0, 0, 1, 1, 2, 3, 4]);
    assert_eq!(words_to_bytes(&[]), Vec::<u8>::new());
    assert_eq!(bytes_to_words(&[0, 0, 0, 1, 1, 2, 3, 4]), Some(vec![1, 0x0102_0304]));
    assert_eq!(bytes_to_words(&[0, 0, 0]), None);
    assert_eq!(bytes_to_words(&[]), Some(vec![]));
}

#[test]
fn a_proof_survives_the_round_trip() {
    let proof = prove([1, 1]).unwrap();
    let bytes = proof.serialize();
    assert_eq!(bytes.len() % 4, 0);
    assert_eq!(&bytes[0..4], &proof.trace_lde_poly_root.to_be_bytes());
    assert_eq!(&bytes[4..8], &proof.composition_even_root.to_be_bytes());
    let back = StarkQueryProof::deserialize(&bytes, &fibonacci_context()).unwrap();
    assert_eq!(back, proof);
    assert!(verify(back, [1, 1]));
}

#[test]
fn two_runs_give_the_same_bytes() {
    assert_eq!(prove([1, 1]).unwrap().serialize(), prove([1, 1]).unwrap().serialize());
}

#[test]
fn a_truncated_proof_is_a_serialization_error() {
    let proof = prove([1, 1]).unwrap();
    let mut bytes = proof.serialize();
    bytes.pop();
    assert_eq!(
        StarkQueryProof::deserialize(&bytes, &fibonacci_context()),
        Err(StarkError::SerializationError)
    );
    bytes.pop();
    bytes.pop();
    bytes.pop();
    assert_eq!(
        StarkQueryProof::deserialize(&bytes, &fibonacci_context()),
        Err(StarkError::SerializationError)
    );
    assert_eq!(
        StarkQueryProof::deserialize(&[], &fibonacci_context()),
        Err(StarkError::SerializationError)
    );
}

#[test]
fn a_lengthened_proof_is_a_serialization_error() {
    let proof = prove([1, 1]).unwrap();
    let mut bytes = proof.serialize();
    bytes.extend_from_slice(&[0, 0, 0, 0]);
    assert_eq!(
        StarkQueryProof::deserialize(&bytes, &fibonacci_context()),
        Err(StarkError::SerializationError)
    );
}

#[test]
fn an_element_that_is_not_canonical_is_a_serialization_error() {
    let proof = prove([1, 1]).unwrap();
    let mut bytes = proof.serialize();
    bytes[0] = 0xff;
    assert_eq!(
        StarkQueryProof::deserialize(&bytes, &fibonacci_context()),
        Err(StarkError::SerializationError)
    );
}

#[test]
fn flipping_a_byte_of_the_proof_is_rejected() {
    let proof = prove([1, 1]).unwrap();
    let bytes = proof.serialize();
    let context = fibonacci_context();
    let step = bytes.len() / 97 + 1;
    let mut position = 0;
    while position < bytes.len() {
        for bit in [0x01u8, 0x80] {
            let mut changed = bytes.clone();
            changed[position] ^= bit;
            match StarkQueryProof::deserialize(&changed, &context) {
                Ok(p) => assert!(!verify(p, [1, 1]), "byte {} bit {}", position, bit),
                Err(e) => assert_eq!(e, StarkError::SerializationError),
            }
        }
        position += step;
    }
}

#[test]
fn deserialization_under_another_context_fails() {
    let air = IdentityAIR {
        trace_length: 8,
        options: ProofOptions { blowup_factor: 4, fri_number_of_queries: 2, coset_offset: 31, grinding_factor: 0 },
        first: 5,
    };
    let trace = TraceTable::new(vec![vec![5; 8]]).unwrap();
    let proof = prove_trace(&air, &trace).unwrap();
    let bytes = proof.serialize();
    let back = StarkQueryProof::deserialize(&bytes, &air.context()).unwrap();
    assert!(verify_proof(&air, &back));
    assert_eq!(
        StarkQueryProof::deserialize(&bytes, &fibonacci_context()),
        Err(StarkError::SerializationError)
    );
    let mut invalid = air.context();
    invalid.trace_length = 7;
    assert_eq!(
        StarkQueryProof::deserialize(&bytes, &invalid),
        Err(StarkError::NonPowerOfTwoLength)
    );
}

#[test]
fn stages_of_the_network() {
    assert_eq!(stage_count(1), Ok(0));
    assert_eq!(stage_count(8), Ok(3));
    assert_eq!(stage_count(12), Err(FFTError::InputError(12)));
    assert_eq!(stage_count(0), Err(FFTError::InputError(0)));
    assert_eq!(
        stage_dispatch(3, 0),
        StageDispatch { group_count: 1, group_size: 8, butterflies_per_group: 4 }
    );
    assert_eq!(
        stage_dispatch(3, 2),
        StageDispatch { group_count: 4, group_size: 2, butterflies_per_group: 1 }
    );
    for stage in 0..10 {
        let d = stage_dispatch(10, stage);
        assert_eq!(d.group_count * d.group_size, 1024);
        assert_eq!(d.group_count * d.butterflies_per_group, 512);
    }
}

#[test]
fn twiddle_tables_of_the_back_end() {
    assert_eq!(twiddle_count(0), Ok(0));
    assert_eq!(twiddle_count(1), Ok(1));
    assert_eq!(twiddle_count(10), Ok(512));
    assert_eq!(twiddle_count(28), Err(FFTError::RootOfUnityError(28)));
    assert_eq!(twiddle_kernel(RootsConfig::Natural), "calc_twiddles_");
    assert_eq!(twiddle_kernel(RootsConfig::NaturalInversed), "calc_twiddles_inv_");
    assert_eq!(twiddle_kernel(RootsConfig::BitReverse), "calc_twiddles_bitrev_");
    assert_eq!(twiddle_kernel(RootsConfig::BitReverseInversed), "calc_twiddles_bitrev_inv_");
}

#[test]
fn decoding_an_element_rejects_what_is_not_canonical() {
    assert_eq!(element_from_bytes(&[0, 0, 0, 7]), Some(7));
    assert_eq!(element_from_bytes(&[0x78, 0, 0, 0]), Some(2013265920));
    assert_eq!(element_from_bytes(&[0x78, 0, 0, 1]), None);
    assert_eq!(element_from_bytes(&[0xff, 0xff, 0xff, 0xff]), None);
    assert_eq!(element_from_bytes(&[0, 0, 7]), None);
    assert_eq!(element_from_bytes(&[0, 0, 0, 0, 7]), None);
    assert_eq!(element_from_bytes(&[1, 2, 3, 4]), Some(0x0102_0304));
}
