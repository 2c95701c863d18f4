//! Error values of the library.

use vstd::prelude::*;

verus! {

/// Why a transform could not be computed.
#[derive(Debug, Clone, Copy, PartialEq, Eq, Structural)]
pub enum FFTError {
    /// No root of unity of order `2^n` exists in the field: `n` exceeds its
    /// two-adicity.
    RootOfUnityError(u64),
    /// The input's length, which is not a power of two.
    InputError(usize),
    /// The offset of a coset, which has no inverse.
    OffsetError(u32),
}

/// Why a query of FRI could not be answered, or does not hold.
#[derive(Debug, Clone, Copy, PartialEq, Eq, Structural)]
pub enum FriError {
    /// An inclusion proof of a layer does not lead to the root of the
    /// layer.
    MerkleProofInvalid,
    /// Two opened values do not fold to the value of the next round.
    FoldingInconsistent,
    /// The last round does not end in the announced constant.
    LastLayerInvalid,
}

/// Why a proof could not be produced, or what is wrong with one. The
/// prover and the verifier report the first ten kinds and the last four.
/// The others name steps that cannot fail in this library, as the
/// contracts of the prover show: an opening is asked for at a position
/// that the tree has, and the numbers of values agree. They are here for
/// callers that name them.
#[derive(Debug, Clone, Copy, PartialEq, Eq, Structural)]
pub enum StarkError {
    /// The low-degree extension is larger than the two-adic subgroup of
    /// the field.
    DomainTooLarge,
    /// A length that must be a power of two is not.
    NonPowerOfTwoLength,
    /// The trace is not a rectangle with at least one column and two rows,
    /// or does not have the shape that the context announces.
    InvalidTraceShape,
    /// The constraints do not have the degrees that the context announces:
    /// the composition polynomial exceeds its degree bound.
    ConstraintDegreeMismatch,
    /// An inclusion proof does not lead to its root.
    MerkleProofInvalid,
    /// Two opened values do not fold to the value of the next round.
    FriFoldingInconsistent,
    /// The DEEP composition polynomial, which is handed to FRI, exceeds
    /// its degree bound of twice the trace length.
    FriLastLayerInvalid,
    /// Every point drawn for the out-of-domain evaluations lies in the
    /// evaluation domain; or an opened value does not agree with the
    /// out-of-domain evaluations.
    OutOfDomainViolation,
    /// The proof does not have the parts that the transcript calls for.
    TranscriptMismatch,
    /// The bytes do not encode a proof.
    SerializationError,
    /// A polynomial could not be evaluated by a transform.
    PolynomialEvaluationError(FFTError),
    /// The number of coefficients of the trace terms of the DEEP
    /// composition polynomial is not the number of rows of the frame times
    /// the number of columns; the third number is the one found.
    DeepTraceTermGammasError(usize, usize, usize),
    /// No inclusion proof could be given for the even half of the
    /// composition polynomial.
    CompositionPolyEvenProofError,
    /// The even half of the composition polynomial has the first number of
    /// values, the domain the second number of points.
    CompositionPolyEvenEvaluationsError(usize, usize),
    /// No inclusion proof could be given for the odd half of the
    /// composition polynomial.
    CompositionPolyOddProofError,
    /// The odd half of the composition polynomial has the first number of
    /// values, the domain the second number of points.
    CompositionPolyOddEvaluationsError(usize, usize),
    /// No inclusion proof could be given for the low-degree extension of
    /// the trace.
    LDETraceMerkleProofError,
    /// A query of FRI could not be answered.
    FriQueryError(FriError),
    /// The evaluation domain could not be created.
    DomainCreationError(FFTError),
    /// The context announces no trace column.
    AIRTraceColumnsError,
    /// The context does not give one degree of at least one for each
    /// transition constraint.
    AIRTransitionDegreesError,
    /// The transition divisor does not exist: an exempted row is named
    /// twice, or lies outside the trace.
    AIRTransitionDivisorsError,
}

} // verus!
