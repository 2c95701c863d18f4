//! The algebraic intermediate representation of a computation: the shape
//! of its trace, and the constraints that a trace must meet.

use crate::bit_reverse::log2_exact;
use crate::divisors::is_transition_divisor;
use crate::divisors::transition_divisors;
use crate::errors::StarkError;
use crate::polynomial::Polynomial;
use crate::roots_of_unity::TWO_ADICITY;
use vstd::arithmetic::power2::*;
use vstd::prelude::*;

verus! {

/// Number of consecutive rows that a transition constraint reads.
pub const FRAME_ROWS: usize = 3;

/// The largest degree that a transition constraint may announce. The
/// composition polynomial is committed in two halves, each of degree below
/// the trace length, so that it has room for constraints of degree two and
/// no more.
pub const MAX_TRANSITION_DEGREE: usize = 2;

/// The parameters of a proof.
#[derive(Debug, Clone, Copy, PartialEq, Eq, Structural)]
pub struct ProofOptions {
    /// Ratio of the size of the evaluation domain to the trace length: a
    /// power of two, at least two.
    pub blowup_factor: u8,
    /// Number of queries, at least one.
    pub fri_number_of_queries: usize,
    /// Offset of the coset that is the evaluation domain.
    pub coset_offset: u64,
    /// Number of leading zero bits asked of a proof of work. The engine
    /// carries the value and asks for no proof of work.
    pub grinding_factor: u8,
}

/// The shape of a trace and of its constraints.
#[derive(Debug, Clone, PartialEq, Eq)]
pub struct AirContext {
    pub options: ProofOptions,
    pub trace_length: usize,
    pub trace_columns: usize,
    /// The degree of each transition constraint.
    pub transition_degrees: Vec<usize>,
    /// The rows at which the transition constraints need not hold.
    pub transition_exemptions: Vec<usize>,
    pub num_transition_constraints: usize,
}

/// An `AirContext` with sequences in place of vectors.
pub struct AirContextView {
    pub options: ProofOptions,
    pub trace_length: nat,
    pub trace_columns: nat,
    pub transition_degrees: Seq<usize>,
    pub transition_exemptions: Seq<usize>,
    pub num_transition_constraints: nat,
}

impl View for AirContext {
    type V = AirContextView;

    open spec fn view(&self) -> AirContextView {
        AirContextView {
            options: self.options,
            trace_length: self.trace_length as nat,
            trace_columns: self.trace_columns as nat,
            transition_degrees: self.transition_degrees@,
            transition_exemptions: self.transition_exemptions@,
            num_transition_constraints: self.num_transition_constraints as nat,
        }
    }
}

impl AirContextView {
    /// The exponent of the trace length.
    pub open spec fn trace_order(self) -> nat {
        crate::fft::log2(self.trace_length)
    }

    /// The exponent of the blowup factor.
    pub open spec fn blowup_order(self) -> nat {
        crate::fft::log2(self.options.blowup_factor as nat)
    }

    /// The exponent of the size of the evaluation domain.
    pub open spec fn lde_order(self) -> nat {
        self.trace_order() + self.blowup_order()
    }

    /// The size of the evaluation domain.
    pub open spec fn lde_size(self) -> nat {
        pow2(self.lde_order())
    }

    /// The error that the context is refused with, if it is refused. The
    /// conditions are tried in the order in which they stand.
    pub open spec fn defect(self) -> Option<StarkError> {
        if self.trace_columns == 0 {
            Some(StarkError::AIRTraceColumnsError)
        } else if !is_pow2(self.trace_length as int) || self.trace_length < 2 {
            Some(StarkError::NonPowerOfTwoLength)
        } else if !is_pow2(self.options.blowup_factor as int) || self.options.blowup_factor < 2 {
            Some(StarkError::NonPowerOfTwoLength)
        } else if self.lde_order() > TWO_ADICITY {
            Some(StarkError::DomainTooLarge)
        } else if self.trace_columns > MAX_COLUMNS {
            Some(StarkError::InvalidTraceShape)
        } else if self.transition_degrees.len() != self.num_transition_constraints
            || self.num_transition_constraints > MAX_CONSTRAINTS || !forall|t: int|
            0 <= t < self.transition_degrees.len() ==> 1 <= #[trigger] self.transition_degrees[t]
                <= MAX_TRANSITION_DEGREE {
            Some(StarkError::AIRTransitionDegreesError)
        } else if self.transition_exemptions.len() > self.trace_length || !forall|e: int|
            0 <= e < self.transition_exemptions.len() ==> #[trigger] self.transition_exemptions[e]
                < self.trace_length {
            Some(StarkError::AIRTransitionDivisorsError)
        } else if self.options.fri_number_of_queries == 0 || self.options.fri_number_of_queries
            > MAX_QUERIES {
            Some(StarkError::TranscriptMismatch)
        } else {
            None
        }
    }

    /// The context is one that the prover and the verifier work with.
    pub open spec fn valid(self) -> bool {
        self.defect() is None
    }
}

/// The largest number of columns of a trace. The columns are committed in
/// one tree, and a proof writes a position in it as a field element: with
/// the largest domain, of `2^27` points, fifteen columns are the most
/// whose positions are all below the modulus `15 * 2^27 + 1`.
pub const MAX_COLUMNS: usize = 15;

/// The largest number of transition constraints, and of boundary
/// constraints. It keeps the number of coefficients of the composition
/// polynomial, two for each constraint, within `usize` on every machine.
pub const MAX_CONSTRAINTS: usize = 0x1_0000;

/// The largest number of queries: the largest power of two for which the
/// bytes of a proof fit a vector on a machine of 32 bits, a query taking
/// up to 5000 words of four bytes.
pub const MAX_QUERIES: usize = 0x1_0000;

impl AirContext {
    /// Checks the context, and reports what is wrong with it.
    #[verifier::loop_isolation(false)]
    pub fn validate(&self) -> (r: Result<(), StarkError>)
        ensures
            r is Ok <==> self@.valid(),
            r matches Err(e) ==> self@.defect() == Some(e),
    {
        if self.trace_columns == 0 {
            return Err(StarkError::AIRTraceColumnsError);
        }
        let kt: u32 = match log2_exact(self.trace_length) {
            Some(k) => k,
            None => {
                return Err(StarkError::NonPowerOfTwoLength);
            },
        };
        if self.trace_length < 2 {
            return Err(StarkError::NonPowerOfTwoLength);
        }
        let kb: u32 = match log2_exact(self.options.blowup_factor as usize) {
            Some(k) => k,
            None => {
                return Err(StarkError::NonPowerOfTwoLength);
            },
        };
        if self.options.blowup_factor < 2 {
            return Err(StarkError::NonPowerOfTwoLength);
        }
        proof {
            crate::fft::lemma_log2_pow2(kt as nat);
            crate::fft::lemma_log2_pow2(kb as nat);
        }
        if kt as u64 + kb as u64 > TWO_ADICITY {
            return Err(StarkError::DomainTooLarge);
        }
        if self.trace_columns > MAX_COLUMNS {
            return Err(StarkError::InvalidTraceShape);
        }
        if self.transition_degrees.len() != self.num_transition_constraints
            || self.num_transition_constraints > MAX_CONSTRAINTS {
            return Err(StarkError::AIRTransitionDegreesError);
        }
        let mut t: usize = 0;
        while t < self.transition_degrees.len()
            invariant
                t <= self.transition_degrees@.len(),
                forall|s: int|
                    0 <= s < t ==> 1 <= #[trigger] self.transition_degrees@[s]
                        <= MAX_TRANSITION_DEGREE,
            decreases self.transition_degrees@.len() - t,
        {
            let d: usize = self.transition_degrees[t];
            if d < 1 || d > MAX_TRANSITION_DEGREE {
                return Err(StarkError::AIRTransitionDegreesError);
            }
            t = t + 1;
        }
        if self.transition_exemptions.len() > self.trace_length {
            return Err(StarkError::AIRTransitionDivisorsError);
        }
        let mut e: usize = 0;
        while e < self.transition_exemptions.len()
            invariant
                e <= self.transition_exemptions@.len(),
                forall|s: int|
                    0 <= s < e ==> #[trigger] self.transition_exemptions@[s] < self.trace_length,
            decreases self.transition_exemptions@.len() - e,
        {
            if self.transition_exemptions[e] >= self.trace_length {
                return Err(StarkError::AIRTransitionDivisorsError);
            }
            e = e + 1;
        }
        if self.options.fri_number_of_queries == 0 || self.options.fri_number_of_queries
            > MAX_QUERIES {
            return Err(StarkError::TranscriptMismatch);
        }
        Ok(())
    }
}

/// An execution trace: a rectangle of field elements, held column by
/// column. Row `i` is the state of the machine at step `i`.
#[derive(Debug, Clone, PartialEq, Eq)]
pub struct TraceTable {
    pub columns: Vec<Vec<u32>>,
}

impl TraceTable {
    /// The number of rows, for a trace with a column.
    pub open spec fn n_rows_spec(&self) -> nat {
        self.columns@[0]@.len()
    }

    /// The number of columns.
    pub open spec fn n_cols_spec(&self) -> nat {
        self.columns@.len()
    }

    /// Column `c`.
    pub open spec fn column(&self, c: int) -> Seq<u32> {
        self.columns@[c]@
    }

    /// The columns.
    pub open spec fn view(&self) -> Seq<Seq<u32>> {
        Seq::new(self.columns@.len(), |c: int| self.columns@[c]@)
    }

    /// The trace is a rectangle with at least one column, whose number of
    /// rows is a power of two, at least two, within the two-adic subgroup
    /// of the field.
    pub open spec fn wf(&self) -> bool {
        &&& self.columns@.len() >= 1
        &&& forall|c: int|
            0 <= c < self.columns@.len() ==> (#[trigger] self.columns@[c])@.len()
                == self.n_rows_spec()
        &&& is_pow2(self.n_rows_spec() as int)
        &&& self.n_rows_spec() >= 2
        &&& crate::fft::log2(self.n_rows_spec()) <= TWO_ADICITY
    }

    /// The error that the columns are refused with, if they are refused.
    pub open spec fn defect(columns: Seq<Vec<u32>>) -> Option<StarkError> {
        if columns.len() == 0 || !forall|c: int|
            0 <= c < columns.len() ==> (#[trigger] columns[c])@.len() == columns[0]@.len() {
            Some(StarkError::InvalidTraceShape)
        } else if !is_pow2(columns[0]@.len() as int) || columns[0]@.len() < 2 {
            Some(StarkError::NonPowerOfTwoLength)
        } else if crate::fft::log2(columns[0]@.len()) > TWO_ADICITY {
            Some(StarkError::DomainTooLarge)
        } else {
            None
        }
    }

    /// The trace with the given columns.
    pub fn new(columns: Vec<Vec<u32>>) -> (r: Result<TraceTable, StarkError>)
        ensures
            r is Ok <==> Self::defect(columns@) is None,
            r matches Err(e) ==> Self::defect(columns@) == Some(e),
            r matches Ok(t) ==> t.wf() && t.columns@ == columns@,
    {
        if columns.len() == 0 {
            return Err(StarkError::InvalidTraceShape);
        }
        let n: usize = columns[0].len();
        let mut c: usize = 0;
        while c < columns.len()
            invariant
                c <= columns@.len(),
                n == columns@[0]@.len(),
                forall|s: int| 0 <= s < c ==> (#[trigger] columns@[s])@.len() == n,
            decreases columns@.len() - c,
        {
            if columns[c].len() != n {
                return Err(StarkError::InvalidTraceShape);
            }
            c = c + 1;
        }
        let k: u32 = match log2_exact(n) {
            Some(k) => k,
            None => {
                return Err(StarkError::NonPowerOfTwoLength);
            },
        };
        if n < 2 {
            return Err(StarkError::NonPowerOfTwoLength);
        }
        proof {
            crate::fft::lemma_log2_pow2(k as nat);
        }
        if k as u64 > TWO_ADICITY {
            return Err(StarkError::DomainTooLarge);
        }
        Ok(TraceTable { columns })
    }

    pub fn n_rows(&self) -> (r: usize)
        requires
            self.columns@.len() >= 1,
        ensures
            r == self.n_rows_spec(),
    {
        self.columns[0].len()
    }

    pub fn n_cols(&self) -> (r: usize)
        ensures
            r == self.n_cols_spec(),
    {
        self.columns.len()
    }

    /// The element of column `col` at row `row`.
    pub fn get(&self, row: usize, col: usize) -> (r: u32)
        requires
            col < self.columns@.len(),
            row < self.columns@[col as int]@.len(),
        ensures
            r == self.column(col as int)[row as int],
    {
        self.columns[col][row]
    }
}

/// A window of `FRAME_ROWS` consecutive rows, held row by row.
#[derive(Debug, Clone, PartialEq, Eq)]
pub struct Frame {
    pub data: Vec<u32>,
    pub row_width: usize,
}

impl Frame {
    /// The elements of the window, row by row. In a window that is `wf`
    /// the width of a row follows from them: it is their number divided by
    /// `FRAME_ROWS`.
    pub open spec fn view(&self) -> Seq<u32> {
        self.data@
    }

    /// The window holds `FRAME_ROWS` rows of `row_width` elements.
    pub open spec fn wf(&self) -> bool {
        self.data@.len() == FRAME_ROWS * self.row_width
    }

    /// The window over the given elements, if they fill `FRAME_ROWS` rows
    /// of `row_width` elements.
    pub fn new(data: Vec<u32>, row_width: usize) -> (r: Option<Frame>)
        ensures
            r is Some <==> data@.len() == FRAME_ROWS * row_width,
            r matches Some(f) ==> f.wf() && f@ == data@ && f.row_width == row_width,
    {
        if row_width > usize::MAX / FRAME_ROWS {
            assert(FRAME_ROWS * row_width > usize::MAX) by (nonlinear_arith)
                requires
                    row_width > usize::MAX / 3,
                    FRAME_ROWS == 3,
            ;
            assert(data@.len() == data.len());
            return None;
        }
        if data.len() != FRAME_ROWS * row_width {
            return None;
        }
        Some(Frame { data, row_width })
    }

    /// The element of row `row` of the window in column `col`.
    pub fn get(&self, row: usize, col: usize) -> (r: u32)
        requires
            self.wf(),
            row < FRAME_ROWS,
            col < self.row_width,
        ensures
            r == self@[row * self.row_width + col],
    {
        assert(0 <= row * self.row_width && row * self.row_width + col < FRAME_ROWS
            * self.row_width) by (nonlinear_arith)
            requires
                row < FRAME_ROWS,
                col < self.row_width,
        ;
        assert(self.data@.len() == self.data.len());
        self.data[row * self.row_width + col]
    }
}

/// The demand that column `col` holds `value` at row `step`.
#[derive(Debug, Clone, Copy, PartialEq, Eq, Structural)]
pub struct BoundaryConstraint {
    pub col: usize,
    pub step: usize,
    pub value: u32,
}

/// The boundary constraints of a computation.
#[derive(Debug, Clone, PartialEq, Eq)]
pub struct BoundaryConstraints {
    pub constraints: Vec<BoundaryConstraint>,
}

impl BoundaryConstraints {
    pub open spec fn view(&self) -> Seq<BoundaryConstraint> {
        self.constraints@
    }
}

/// Every boundary constraint names a column and a row of the trace.
pub open spec fn boundary_in_range(bs: Seq<BoundaryConstraint>, ctx: AirContextView) -> bool {
    &&& bs.len() <= MAX_CONSTRAINTS
    &&& forall|i: int|
        0 <= i < bs.len() ==> (#[trigger] bs[i]).col < ctx.trace_columns && bs[i].step
            < ctx.trace_length
}

/// A computation, as the engine sees it: a context, a transition function
/// on windows of the trace whose results are zero wherever the trace is
/// valid, and boundary constraints.
pub trait AIR: Sized {
    /// The context.
    spec fn context_view(&self) -> AirContextView;

    /// The values of the transition constraints on a window.
    spec fn transition_spec(&self, frame: Seq<u32>) -> Seq<u32>;

    /// The boundary constraints.
    spec fn boundary_view(&self) -> Seq<BoundaryConstraint>;

    fn new(trace: TraceTable, context: AirContext) -> Self;

    /// The values of the transition constraints on `frame`, one for each
    /// constraint.
    fn compute_transition(&self, frame: &Frame) -> (r: Vec<u32>)
        requires
            frame.wf(),
            frame.row_width == self.context_view().trace_columns,
        ensures
            r@ == self.transition_spec(frame@),
            r@.len() == self.context_view().num_transition_constraints,
    ;

    fn boundary_constraints(&self) -> (r: BoundaryConstraints)
        ensures
            r@ == self.boundary_view(),
    ;

    fn context(&self) -> (r: AirContext)
        ensures
            r@ == self.context_view(),
    ;

    fn options(&self) -> (r: ProofOptions)
        ensures
            r == self.context_view().options,
    {
        self.context().options
    }

    fn blowup_factor(&self) -> (r: u8)
        ensures
            r == self.context_view().options.blowup_factor,
    {
        self.options().blowup_factor
    }

    /// The divisors of the transition constraints, one for each
    /// constraint.
    fn transition_divisors(&self) -> (r: Result<Vec<Polynomial>, StarkError>)
        ensures
            !self.context_view().valid() ==> r == Err::<Vec<Polynomial>, StarkError>(
                self.context_view().defect().unwrap(),
            ),
            r matches Err(e) ==> self.context_view().defect() == Some(e) || (
            self.context_view().valid() && e == StarkError::AIRTransitionDivisorsError),
            self.context_view().valid() ==> (r is Ok <==> crate::divisors::has_divisor(
                self.context_view(),
            )),
            self.context_view().valid() && self.context_view().transition_exemptions.len() <= 1
                ==> r is Ok,
            r matches Ok(v) ==> {
                &&& v@.len() == self.context_view().num_transition_constraints
                &&& forall|t: int|
                    0 <= t < v@.len() ==> (#[trigger] v@[t])@ == crate::divisors::divisor_division(
                        self.context_view(),
                    ).0 && is_transition_divisor(v@[t], self.context_view())
            },
    {
        transition_divisors(&self.context())
    }
}

} // verus!
