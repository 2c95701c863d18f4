//! Four small computations, each with one rule for passing from a row of
//! its trace to the next.

use crate::air::AIR;
use crate::air::AirContext;
use crate::air::AirContextView;
use crate::air::BoundaryConstraint;
use crate::air::BoundaryConstraints;
use crate::air::Frame;
use crate::air::ProofOptions;
use crate::air::TraceTable;
use crate::field::U32TestField;
use crate::field::fadd;
use crate::field::fsub;
use crate::field::p;
use vstd::prelude::*;

verus! {

/// The rows that a rule with `reach` rows of look-ahead cannot be asked
/// for: the last `reach` rows of a trace of `len` rows.
pub open spec fn last_rows(len: nat, reach: nat) -> Seq<usize> {
    if len >= reach {
        Seq::new(reach, |i: int| (len - reach + i) as usize)
    } else {
        Seq::empty()
    }
}

/// The last `reach` rows of a trace of `len` rows.
pub fn last_rows_of(len: usize, reach: usize) -> (r: Vec<usize>)
    ensures
        r@ == last_rows(len as nat, reach as nat),
{
    let mut out: Vec<usize> = Vec::new();
    if len >= reach {
        let mut i: usize = 0;
        while i < reach
            invariant
                i <= reach,
                reach <= len,
                out@.len() == i,
                forall|j: int| 0 <= j < i ==> out@[j] == (len - reach + j) as usize,
            decreases reach - i,
        {
            out.push(len - reach + i);
            i = i + 1;
        }
    }
    assert(out@ =~= last_rows(len as nat, reach as nat));
    out
}

/// The element of `trace` in column `col` at row `row`, or zero where the
/// trace has no such element.
pub open spec fn first_element(trace: TraceTable, row: int, col: int) -> u32 {
    if 0 <= col < trace.columns@.len() && 0 <= row < trace.columns@[col]@.len() {
        trace.columns@[col]@[row]
    } else {
        0
    }
}

/// The element of `trace` in column `col` at row `row`, or zero where the
/// trace has no such element.
pub fn element_or_zero(trace: &TraceTable, row: usize, col: usize) -> (r: u32)
    ensures
        r == first_element(*trace, row as int, col as int),
{
    if col < trace.columns.len() && row < trace.columns[col].len() {
        trace.columns[col][row]
    } else {
        0
    }
}

/// The Fibonacci sequence in one column: each row is the sum of the two
/// rows before it. The first two rows are public.
#[derive(Clone, Copy, Debug)]
pub struct FibonacciAIR {
    pub trace_length: usize,
    pub options: ProofOptions,
    pub first: u32,
    pub second: u32,
}

impl AIR for FibonacciAIR {
    open spec fn context_view(&self) -> AirContextView {
        AirContextView {
            options: self.options,
            trace_length: self.trace_length as nat,
            trace_columns: 1,
            transition_degrees: seq![1usize],
            transition_exemptions: last_rows(self.trace_length as nat, 2),
            num_transition_constraints: 1,
        }
    }

    open spec fn transition_spec(&self, frame: Seq<u32>) -> Seq<u32> {
        seq![
            fsub(fsub(frame[2] as int, frame[1] as int, p()), frame[0] as int, p()) as u32,
        ]
    }

    open spec fn boundary_view(&self) -> Seq<BoundaryConstraint> {
        seq![
            BoundaryConstraint { col: 0, step: 0, value: self.first },
            BoundaryConstraint { col: 0, step: 1, value: self.second },
        ]
    }

    fn new(trace: TraceTable, context: AirContext) -> (r: Self)
        ensures
            r.trace_length == context.trace_length,
            r.options == context.options,
            r.first == first_element(trace, 0, 0),
            r.second == first_element(trace, 1, 0),
    {
        FibonacciAIR {
            trace_length: context.trace_length,
            options: context.options,
            first: element_or_zero(&trace, 0, 0),
            second: element_or_zero(&trace, 1, 0),
        }
    }

    fn compute_transition(&self, frame: &Frame) -> (r: Vec<u32>) {
        let d: u32 = U32TestField::sub(&frame.data[2], &frame.data[1]);
        let c: u32 = U32TestField::sub(&d, &frame.data[0]);
        let out = vec![c];
        assert(out@ =~= self.transition_spec(frame@));
        out
    }

    fn boundary_constraints(&self) -> (r: BoundaryConstraints) {
        let constraints = vec![
            BoundaryConstraint { col: 0, step: 0, value: self.first },
            BoundaryConstraint { col: 0, step: 1, value: self.second },
        ];
        assert(constraints@ =~= self.boundary_view());
        BoundaryConstraints { constraints }
    }

    fn context(&self) -> (r: AirContext) {
        let transition_degrees: Vec<usize> = vec![1];
        assert(transition_degrees@ =~= seq![1usize]);
        AirContext {
            options: self.options,
            trace_length: self.trace_length,
            trace_columns: 1,
            transition_degrees,
            transition_exemptions: last_rows_of(self.trace_length, 2),
            num_transition_constraints: 1,
        }
    }
}

/// A column that never changes: each row equals the row before it. The
/// first row is public.
#[derive(Clone, Copy, Debug)]
pub struct IdentityAIR {
    pub trace_length: usize,
    pub options: ProofOptions,
    pub first: u32,
}

impl AIR for IdentityAIR {
    open spec fn context_view(&self) -> AirContextView {
        AirContextView {
            options: self.options,
            trace_length: self.trace_length as nat,
            trace_columns: 1,
            transition_degrees: seq![1usize],
            transition_exemptions: last_rows(self.trace_length as nat, 1),
            num_transition_constraints: 1,
        }
    }

    open spec fn transition_spec(&self, frame: Seq<u32>) -> Seq<u32> {
        seq![fsub(frame[1] as int, frame[0] as int, p()) as u32]
    }

    open spec fn boundary_view(&self) -> Seq<BoundaryConstraint> {
        seq![BoundaryConstraint { col: 0, step: 0, value: self.first }]
    }

    fn new(trace: TraceTable, context: AirContext) -> (r: Self)
        ensures
            r.trace_length == context.trace_length,
            r.options == context.options,
            r.first == first_element(trace, 0, 0),
    {
        IdentityAIR {
            trace_length: context.trace_length,
            options: context.options,
            first: element_or_zero(&trace, 0, 0),
        }
    }

    fn compute_transition(&self, frame: &Frame) -> (r: Vec<u32>) {
        let c: u32 = U32TestField::sub(&frame.data[1], &frame.data[0]);
        let out = vec![c];
        assert(out@ =~= self.transition_spec(frame@));
        out
    }

    fn boundary_constraints(&self) -> (r: BoundaryConstraints) {
        let constraints = vec![BoundaryConstraint { col: 0, step: 0, value: self.first }];
        assert(constraints@ =~= self.boundary_view());
        BoundaryConstraints { constraints }
    }

    fn context(&self) -> (r: AirContext) {
        let transition_degrees: Vec<usize> = vec![1];
        assert(transition_degrees@ =~= seq![1usize]);
        AirContext {
            options: self.options,
            trace_length: self.trace_length,
            trace_columns: 1,
            transition_degrees,
            transition_exemptions: last_rows_of(self.trace_length, 1),
            num_transition_constraints: 1,
        }
    }
}

/// A counter: each row is the row before it plus one. The first row is
/// public.
#[derive(Clone, Copy, Debug)]
pub struct CounterAIR {
    pub trace_length: usize,
    pub options: ProofOptions,
    pub start: u32,
}

impl AIR for CounterAIR {
    open spec fn context_view(&self) -> AirContextView {
        AirContextView {
            options: self.options,
            trace_length: self.trace_length as nat,
            trace_columns: 1,
            transition_degrees: seq![1usize],
            transition_exemptions: last_rows(self.trace_length as nat, 1),
            num_transition_constraints: 1,
        }
    }

    open spec fn transition_spec(&self, frame: Seq<u32>) -> Seq<u32> {
        seq![fsub(fsub(frame[1] as int, frame[0] as int, p()), 1, p()) as u32]
    }

    open spec fn boundary_view(&self) -> Seq<BoundaryConstraint> {
        seq![BoundaryConstraint { col: 0, step: 0, value: self.start }]
    }

    fn new(trace: TraceTable, context: AirContext) -> (r: Self)
        ensures
            r.trace_length == context.trace_length,
            r.options == context.options,
            r.start == first_element(trace, 0, 0),
    {
        CounterAIR {
            trace_length: context.trace_length,
            options: context.options,
            start: element_or_zero(&trace, 0, 0),
        }
    }

    fn compute_transition(&self, frame: &Frame) -> (r: Vec<u32>) {
        let d: u32 = U32TestField::sub(&frame.data[1], &frame.data[0]);
        let c: u32 = U32TestField::sub(&d, &1);
        let out = vec![c];
        assert(out@ =~= self.transition_spec(frame@));
        out
    }

    fn boundary_constraints(&self) -> (r: BoundaryConstraints) {
        let constraints = vec![BoundaryConstraint { col: 0, step: 0, value: self.start }];
        assert(constraints@ =~= self.boundary_view());
        BoundaryConstraints { constraints }
    }

    fn context(&self) -> (r: AirContext) {
        let transition_degrees: Vec<usize> = vec![1];
        assert(transition_degrees@ =~= seq![1usize]);
        AirContext {
            options: self.options,
            trace_length: self.trace_length,
            trace_columns: 1,
            transition_degrees,
            transition_exemptions: last_rows_of(self.trace_length, 1),
            num_transition_constraints: 1,
        }
    }
}

/// The Fibonacci sequence in two columns: the first column of a row is the
/// second column of the row before it, and the second column is the sum of
/// both columns of the row before it. The first row is public.
#[derive(Clone, Copy, Debug)]
pub struct TwoColumnFibonacciAIR {
    pub trace_length: usize,
    pub options: ProofOptions,
    pub first: u32,
    pub second: u32,
}

impl AIR for TwoColumnFibonacciAIR {
    open spec fn context_view(&self) -> AirContextView {
        AirContextView {
            options: self.options,
            trace_length: self.trace_length as nat,
            trace_columns: 2,
            transition_degrees: seq![1usize, 1usize],
            transition_exemptions: last_rows(self.trace_length as nat, 1),
            num_transition_constraints: 2,
        }
    }

    open spec fn transition_spec(&self, frame: Seq<u32>) -> Seq<u32> {
        seq![
            fsub(frame[2] as int, frame[1] as int, p()) as u32,
            fsub(frame[3] as int, fadd(frame[0] as int, frame[1] as int, p()), p()) as u32,
        ]
    }

    open spec fn boundary_view(&self) -> Seq<BoundaryConstraint> {
        seq![
            BoundaryConstraint { col: 0, step: 0, value: self.first },
            BoundaryConstraint { col: 1, step: 0, value: self.second },
        ]
    }

    fn new(trace: TraceTable, context: AirContext) -> (r: Self)
        ensures
            r.trace_length == context.trace_length,
            r.options == context.options,
            r.first == first_element(trace, 0, 0),
            r.second == first_element(trace, 0, 1),
    {
        TwoColumnFibonacciAIR {
            trace_length: context.trace_length,
            options: context.options,
            first: element_or_zero(&trace, 0, 0),
            second: element_or_zero(&trace, 0, 1),
        }
    }

    fn compute_transition(&self, frame: &Frame) -> (r: Vec<u32>) {
        let shift: u32 = U32TestField::sub(&frame.data[2], &frame.data[1]);
        let sum: u32 = U32TestField::add(&frame.data[0], &frame.data[1]);
        let step: u32 = U32TestField::sub(&frame.data[3], &sum);
        let out = vec![shift, step];
        assert(out@ =~= self.transition_spec(frame@));
        out
    }

    fn boundary_constraints(&self) -> (r: BoundaryConstraints) {
        let constraints = vec![
            BoundaryConstraint { col: 0, step: 0, value: self.first },
            BoundaryConstraint { col: 1, step: 0, value: self.second },
        ];
        assert(constraints@ =~= self.boundary_view());
        BoundaryConstraints { constraints }
    }

    fn context(&self) -> (r: AirContext) {
        let transition_degrees: Vec<usize> = vec![1, 1];
        assert(transition_degrees@ =~= seq![1usize, 1usize]);
        AirContext {
            options: self.options,
            trace_length: self.trace_length,
            trace_columns: 2,
            transition_degrees,
            transition_exemptions: last_rows_of(self.trace_length, 1),
            num_transition_constraints: 2,
        }
    }
}

} // verus!
