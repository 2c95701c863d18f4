//! A STARK proving and verification engine over a two-adic prime field:
//! field arithmetic, radix-2 FFT, Merkle commitments, a Fiat-Shamir
//! transcript, the FRI low-degree test and the prover and verifier built
//! on them. Every function carries a contract that Verus proves.

pub mod air;
pub mod back_end;
pub mod bit_reverse;
pub mod computations;
pub mod constant_trace;
pub mod constraints;
pub mod coset;
pub mod determinism;
pub mod divisor_laws;
pub mod divisors;
pub mod domain;
pub mod errors;
pub mod evaluation;
pub mod fft;
pub mod fft_inverse;
pub mod fft_meaning;
pub mod field;
pub mod field_laws;
pub mod fri;
pub mod hash;
pub mod honest;
pub mod merkle;
pub mod modular;
pub mod poly_eval;
pub mod polynomial;
pub mod prover;
pub mod roots_of_unity;
pub mod serialization;
pub mod stark_proof;
pub mod stark_prover;
pub mod stark_run;
pub mod stark_verifier;
pub mod tampering;
pub mod transcript;
