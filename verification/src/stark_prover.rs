//! The prover: it extends the trace, builds the composition polynomial
//! and the DEEP composition polynomial, runs FRI and answers the queries
//! that the transcript draws.

use crate::air::AIR;
use crate::air::AirContext;
use crate::air::AirContextView;
use crate::air::BoundaryConstraints;
use crate::air::FRAME_ROWS;
use crate::air::Frame;
use crate::air::MAX_COLUMNS;
use crate::air::TraceTable;
use crate::air::boundary_in_range;
use crate::constraints::coefficient_count;
use crate::constraints::composition_at;
use crate::constraints::composition_value;
use crate::constraints::deep_at;
use crate::constraints::deep_value;
use crate::constraints::join_halves;
use crate::constraints::join_values;
use crate::coset::Coset;
use crate::domain::Domain;
use crate::domain::context_offset;
use crate::errors::StarkError;
use crate::evaluation::coset_point;
use crate::evaluation::evaluate;
use crate::evaluation::interpolate_fft;
use crate::field::U32TestField;
use crate::field::fmul;
use crate::field::fpow;
use crate::field::p;
use crate::fri::FriCommitment;
use crate::fri::coset_evals;
use crate::fri::evaluate_on_coset;
use crate::fri::fri_commit_phase;
use crate::fri::fri_decommit_layers;
use crate::fri::interpolate_on_coset;
use crate::merkle::MerkleTree;
use crate::merkle::Proof;
use crate::poly_eval::canonical;
use crate::poly_eval::evens;
use crate::poly_eval::odds;
use crate::poly_eval::poly_eval;
use crate::roots_of_unity::root_of_unity;
use crate::stark_proof::ProofHeader;
use crate::stark_proof::QueryOpening;
use crate::stark_proof::StarkQueryProof;
use crate::stark_proof::gamma_count;
use crate::stark_proof::opened_values;
use crate::stark_proof::opens;
use crate::stark_proof::proof_accepts;
use crate::stark_proof::query_accepts;
use crate::stark_proof::query_holds;
use crate::stark_proof::window_position;
use crate::stark_run::ProverRun;
use crate::stark_run::honest_opening;
use crate::stark_run::honest_proof;
use crate::stark_run::honest_run;
use crate::stark_run::is_opening_of;
use crate::stark_run::run_failure;
use crate::stark_verifier::lemma_domain_bounds;
use crate::stark_verifier::draw_point;
use crate::transcript::Transcript;
use vstd::arithmetic::div_mod::*;
use vstd::arithmetic::mul::*;
use vstd::arithmetic::power2::*;
use vstd::prelude::*;

verus! {

/// The values of column `c` in a sequence that holds all columns, of `n`
/// values each, one after the other.
pub open spec fn column_slice(flat: Seq<u32>, n: int, c: int) -> Seq<u32> {
    flat.subrange(c * n, c * n + n)
}

/// The window of the extended trace that starts at row `i`.
pub open spec fn window(lde: Seq<u32>, ctx: AirContextView, i: int) -> Seq<u32> {
    Seq::new((FRAME_ROWS * ctx.trace_columns) as nat, |t: int| lde[window_position(ctx, i, t)])
}

/// The value of the composition polynomial at point `i` of the
/// evaluation domain.
pub open spec fn composition_on_domain<A: AIR>(
    air: &A,
    lde: Seq<u32>,
    coeffs: Seq<u32>,
    i: int,
) -> int {
    let ctx = air.context_view();
    let w = window(lde, ctx, i);
    composition_value(
        ctx,
        air.boundary_view(),
        air.transition_spec(w),
        w,
        coset_point(ctx.lde_size(), context_offset(ctx), i as nat),
        coeffs,
    )
}

/// A position of a window lies inside the extended trace.
pub proof fn lemma_window_position(ctx: AirContextView, q: int, t: int)
    requires
        ctx.trace_columns >= 1,
        ctx.lde_size() >= 1,
        0 <= q,
        0 <= t < FRAME_ROWS * ctx.trace_columns,
    ensures
        0 <= window_position(ctx, q, t) < ctx.trace_columns * ctx.lde_size(),
        0 <= t % (ctx.trace_columns as int) < ctx.trace_columns,
        0 <= t / (ctx.trace_columns as int) < FRAME_ROWS,
        t < ctx.trace_columns && q < ctx.lde_size() ==> window_position(ctx, q, t) == t
            * ctx.lde_size() + q,
{
    let cols = ctx.trace_columns as int;
    let n = ctx.lde_size() as int;
    let b = ctx.options.blowup_factor as int;
    let col = t % cols;
    let row = t / cols;
    lemma_mod_bound(t, cols);
    lemma_fundamental_div_mod(t, cols);
    lemma_div_pos_is_pos(t, cols);
    assert(row < 3) by (nonlinear_arith)
        requires
            t == cols * row + col,
            col >= 0,
            t < 3 * cols,
            cols >= 1,
    ;
    assert(0 <= row * b) by (nonlinear_arith)
        requires
            row >= 0,
            b >= 0,
    ;
    lemma_mod_bound(q + row * b, n);
    assert(0 <= col * n && col * n + n <= cols * n) by (nonlinear_arith)
        requires
            0 <= col < cols,
            n >= 1,
    ;
    if t < cols && q < n {
        lemma_small_mod(t as nat, cols as nat);
        lemma_basic_div(t, cols);
        lemma_mul_basics(b);
        lemma_small_mod(q as nat, n as nat);
    }
}

/// The extended trace: for each column, the coefficients of the
/// polynomial that takes the values of the column on the powers of the
/// root of unity of order the trace length; and the values of all these
/// polynomials on the evaluation domain, column after column.
pub fn extend_trace(trace: &TraceTable, domain: &Domain) -> (r: (Vec<Vec<u32>>, Vec<u32>))
    requires
        trace.wf(),
        domain.wf(),
        trace.n_rows_spec() == domain.trace_length,
        trace.n_cols_spec() <= MAX_COLUMNS,
    ensures
        r.0@.len() == trace.n_cols_spec(),
        r.1@.len() == trace.n_cols_spec() * domain.lde.size,
        canonical(r.1@),
        forall|c: int|
            0 <= c < trace.n_cols_spec() ==> {
                &&& (#[trigger] r.0@[c])@.len() == domain.trace_length
                &&& canonical(r.0@[c]@)
                &&& r.0@[c]@ == crate::stark_run::interpolated_on_subgroup(
                    trace.column(c),
                    domain.trace_order as nat,
                )
                &&& forall|j: int|
                    0 <= j < domain.trace_length ==> poly_eval(
                        r.0@[c]@,
                        fpow(domain.trace_generator as int, j as nat, p()),
                    ) == trace.column(c)[j] as int % p()
            },
        forall|c: int|
            0 <= c < trace.n_cols_spec() ==> #[trigger] column_slice(
                r.1@,
                domain.lde.size as int,
                c,
            ) == coset_evals(r.0@[c]@, domain.lde.size as nat, domain.lde.offset as int),
{
    let cols: usize = trace.columns.len();
    let n: usize = domain.lde.size;
    let mut polys: Vec<Vec<u32>> = Vec::new();
    let mut lde: Vec<u32> = Vec::new();
    let mut c: usize = 0;
    proof {
        lemma2_to64();
        crate::constraints::lemma_pow2_strictly_increases_to(domain.lde.order as nat, 27);
        crate::fri::lemma_is_pow2_log(domain.trace_length as nat);
        lemma_pow2_adds(domain.trace_order as nat, domain.blowup_order as nat);
        lemma_pow2_pos(domain.blowup_order as nat);
        assert(domain.trace_length <= n) by (nonlinear_arith)
            requires
                n == domain.trace_length * domain.blowup,
                domain.blowup >= 1,
        ;
    }
    while c < cols
        invariant
            c <= cols,
            cols == trace.n_cols_spec(),
            cols <= MAX_COLUMNS,
            n == domain.lde.size,
            n <= 0x800_0000,
            domain.trace_length <= n,
            trace.wf(),
            domain.wf(),
            trace.n_rows_spec() == domain.trace_length,
            polys@.len() == c,
            lde@.len() == c * n,
            canonical(lde@),
            forall|d: int|
                0 <= d < c ==> {
                    &&& (#[trigger] polys@[d])@.len() == domain.trace_length
                    &&& canonical(polys@[d]@)
                    &&& polys@[d]@ == crate::stark_run::interpolated_on_subgroup(
                        trace.column(d),
                        domain.trace_order as nat,
                    )
                    &&& forall|j: int|
                        0 <= j < domain.trace_length ==> poly_eval(
                            polys@[d]@,
                            fpow(domain.trace_generator as int, j as nat, p()),
                        ) == trace.column(d)[j] as int % p()
                },
            forall|d: int|
                0 <= d < c ==> #[trigger] column_slice(lde@, n as int, d) == coset_evals(
                    polys@[d]@,
                    n as nat,
                    domain.lde.offset as int,
                ),
        decreases cols - c,
    {
        let column = &trace.columns[c];
        assert(column@.len() == trace.n_rows_spec());
        proof {
            crate::fft::lemma_log2_pow2(domain.trace_order as nat);
        }
        let coeffs = match interpolate_fft(column.as_slice()) {
            Ok(v) => v,
            Err(_) => Vec::new(),
        };
        let values = evaluate_on_coset(coeffs.as_slice(), &domain.lde);
        let ghost before = lde@;
        proof {
            assert(c * n + n == (c + 1) * n) by (nonlinear_arith);
            assert((c + 1) * n <= 16 * n) by (nonlinear_arith)
                requires
                    c + 1 <= 16,
                    n >= 0,
            ;
        }
        let mut i: usize = 0;
        while i < n
            invariant
                i <= n,
                n == values@.len(),
                before.len() == c * n,
                c * n + n <= 0x8000_0000,
                lde@ == before + values@.subrange(0, i as int),
            decreases n - i,
        {
            lde.push(values[i]);
            i = i + 1;
            assert(values@.subrange(0, i as int) =~= values@.subrange(0, i - 1).push(
                values@[i - 1],
            ));
        }
        proof {
            assert(values@.subrange(0, n as int) == values@);
            assert(column_slice(lde@, n as int, c as int) =~= values@);
            assert forall|d: int| 0 <= d < c implies #[trigger] column_slice(lde@, n as int, d)
                == coset_evals(polys@[d]@, n as nat, domain.lde.offset as int) by {
                assert(d * n + n <= c * n) by (nonlinear_arith)
                    requires
                        0 <= d < c,
                        n >= 0,
                ;
                assert(0 <= d * n) by (nonlinear_arith)
                    requires
                        0 <= d,
                        n >= 0,
                ;
                assert(column_slice(lde@, n as int, d) =~= column_slice(before, n as int, d));
            }
        }
        let ghost old_polys = polys@;
        polys.push(coeffs);
        proof {
            assert forall|d: int| 0 <= d < c + 1 implies {
                &&& (#[trigger] polys@[d])@.len() == domain.trace_length
                &&& canonical(polys@[d]@)
                &&& polys@[d]@ == crate::stark_run::interpolated_on_subgroup(
                    trace.column(d),
                    domain.trace_order as nat,
                )
                &&& forall|j: int|
                    0 <= j < domain.trace_length ==> poly_eval(
                        polys@[d]@,
                        fpow(domain.trace_generator as int, j as nat, p()),
                    ) == trace.column(d)[j] as int % p()
            } by {
                if d < c {
                    assert(polys@[d] == old_polys[d]);
                } else {
                    assert(polys@[d]@ == coeffs@);
                    assert(trace.column(d) == column@);
                }
            }
        }
        c = c + 1;
    }
    (polys, lde)
}

/// The values of the composition polynomial on the evaluation domain,
/// from the extended trace.
pub fn composition_evaluations<A: AIR>(
    air: &A,
    ctx: &AirContext,
    bs: &BoundaryConstraints,
    domain: &Domain,
    lde: &[u32],
    coeffs: &[u32],
) -> (r: Vec<u32>)
    requires
        ctx@ == air.context_view(),
        bs@ == air.boundary_view(),
        ctx@.valid(),
        domain.of(ctx@),
        boundary_in_range(bs@, ctx@),
        coeffs@.len() == coefficient_count(ctx@, bs@),
        lde@.len() == ctx@.trace_columns * ctx@.lde_size(),
    ensures
        r@.len() == ctx@.lde_size(),
        canonical(r@),
        forall|i: int|
            0 <= i < r@.len() ==> #[trigger] r@[i] as int == composition_on_domain(
                air,
                lde@,
                coeffs@,
                i,
            ),
{
    proof {
        lemma_domain_bounds(*domain, ctx@);
    }
    let cols: usize = ctx.trace_columns;
    let n: usize = domain.lde.size;
    let b: usize = domain.blowup;
    let mut out: Vec<u32> = Vec::new();
    let mut i: usize = 0;
    while i < n
        invariant
            i <= n,
            ctx@ == air.context_view(),
            bs@ == air.boundary_view(),
            ctx@.valid(),
            domain.of(ctx@),
            boundary_in_range(bs@, ctx@),
            coeffs@.len() == coefficient_count(ctx@, bs@),
            lde@.len() == cols * n,
            cols == ctx@.trace_columns,
            1 <= cols <= MAX_COLUMNS,
            n == domain.lde.size,
            n == ctx@.lde_size(),
            4 <= n <= 0x800_0000,
            b == domain.blowup,
            b == ctx@.options.blowup_factor,
            2 <= b <= 128,
            out@.len() == i,
            canonical(out@),
            forall|j: int|
                0 <= j < i ==> #[trigger] out@[j] as int == composition_on_domain(
                    air,
                    lde@,
                    coeffs@,
                    j,
                ),
        decreases n - i,
    {
        let data = window_values(lde, ctx, domain, i);
        let frame = match Frame::new(data, cols) {
            Some(f) => f,
            None => Frame { data: Vec::new(), row_width: cols },
        };
        let x: u32 = domain.lde.point(i);
        let value: u32 = composition_at(air, ctx, bs, &frame, x, coeffs, domain);
        out.push(value);
        i = i + 1;
    }
    out
}

/// The window of the extended trace that starts at row `i`.
pub fn window_values(lde: &[u32], ctx: &AirContext, domain: &Domain, i: usize) -> (r: Vec<u32>)
    requires
        ctx@.valid(),
        domain.of(ctx@),
        lde@.len() == ctx@.trace_columns * ctx@.lde_size(),
        i < ctx@.lde_size(),
    ensures
        r@ == window(lde@, ctx@, i as int),
        r@.len() == FRAME_ROWS * ctx@.trace_columns,
{
    proof {
        lemma_domain_bounds(*domain, ctx@);
    }
    let cols: usize = ctx.trace_columns;
    let n: usize = domain.lde.size;
    let b: usize = domain.blowup;
    let mut data: Vec<u32> = Vec::new();
    let mut t: usize = 0;
    while t < FRAME_ROWS * cols
        invariant
            t <= FRAME_ROWS * cols,
            ctx@.valid(),
            lde@.len() == cols * n,
            cols == ctx@.trace_columns,
            1 <= cols <= MAX_COLUMNS,
            n == ctx@.lde_size(),
            4 <= n <= 0x800_0000,
            b == ctx@.options.blowup_factor,
            2 <= b <= 128,
            i < n,
            data@.len() == t,
            forall|s: int| 0 <= s < t ==> data@[s] == window(lde@, ctx@, i as int)[s],
        decreases FRAME_ROWS * cols - t,
    {
        proof {
            lemma_window_position(ctx@, i as int, t as int);
        }
        let col: usize = t % cols;
        let row: usize = t / cols;
        assert(col * n <= 15 * n && row * b <= 2 * b) by (nonlinear_arith)
            requires
                col < cols,
                cols <= 16,
                row < 3,
                n >= 0,
                b >= 0,
        ;
        let pos: usize = col * n + (i + row * b) % n;
        data.push(lde[pos]);
        t = t + 1;
    }
    assert(data@ =~= window(lde@, ctx@, i as int));
    data
}

/// The coefficients, from the values `evals` on the evaluation domain, of
/// the polynomial of degree below the size of the domain.
pub open spec fn interpolated(evals: Seq<u32>, coset: Coset) -> Seq<u32> {
    crate::stark_run::interpolated_on(evals, coset.order as nat, coset.offset_inv as int)
}

/// All coefficients from position `bound` on are zero.
pub open spec fn vanishes_from(c: Seq<u32>, bound: int) -> bool {
    forall|j: int| bound <= j < c.len() ==> c[j] == 0
}

/// Whether all coefficients from position `bound` on are zero.
pub fn degree_below(coeffs: &[u32], bound: usize) -> (r: bool)
    ensures
        r == vanishes_from(coeffs@, bound as int),
{
    let mut j: usize = bound;
    while j < coeffs.len()
        invariant
            bound <= j,
            forall|t: int| bound <= t < j && t < coeffs@.len() ==> coeffs@[t] == 0,
        decreases coeffs@.len() - j,
    {
        if coeffs[j] != 0 {
            return false;
        }
        j = j + 1;
    }
    true
}

/// The two halves of the composition polynomial `H(X) = E(X^2) + X *
/// O(X^2)`: their coefficients, their values on the coset of the squares
/// of the evaluation domain, and the Merkle trees over these values.
pub struct CompositionHalves {
    pub even_coeffs: Vec<u32>,
    pub odd_coeffs: Vec<u32>,
    pub even_evals: Vec<u32>,
    pub odd_evals: Vec<u32>,
    pub even_tree: MerkleTree,
    pub odd_tree: MerkleTree,
}

impl CompositionHalves {
    /// The halves are those of the polynomial with the values `h_evals` on
    /// the evaluation domain.
    pub open spec fn halves_of(&self, h_evals: Seq<u32>, domain: Domain) -> bool {
        let n = domain.lde.size as int;
        let h = domain.lde.offset as int;
        let low = interpolated(h_evals, domain.lde).subrange(0, 2 * domain.trace_length);
        &&& self.even_coeffs@ == evens(low)
        &&& self.odd_coeffs@ == odds(low)
        &&& self.even_evals@ == coset_evals(self.even_coeffs@, (n / 2) as nat, fmul(h, h, p()))
        &&& self.odd_evals@ == coset_evals(self.odd_coeffs@, (n / 2) as nat, fmul(h, h, p()))
        &&& self.even_tree.wf()
        &&& self.even_tree@ == self.even_evals@
        &&& self.odd_tree.wf()
        &&& self.odd_tree@ == self.odd_evals@
        &&& forall|i: int|
            0 <= i < n ==> join_halves(
                self.even_evals@[i % (n / 2)] as int,
                self.odd_evals@[i % (n / 2)] as int,
                coset_point(n as nat, h, i as nat),
            ) == #[trigger] h_evals[i] as int
    }
}

/// Splits the composition polynomial, given by its values on the
/// evaluation domain, into its even and its odd half, and commits to
/// both. There are no halves of the right degree if the polynomial has
/// `2 * N` coefficients or more.
pub fn commit_composition(h_evals: &[u32], domain: &Domain) -> (r: Option<CompositionHalves>)
    requires
        domain.wf(),
        h_evals@.len() == domain.lde.size,
        canonical(h_evals@),
    ensures
        r is Some <==> vanishes_from(
            interpolated(h_evals@, domain.lde),
            2 * domain.trace_length,
        ),
        r matches Some(halves) ==> halves.halves_of(h_evals@, *domain),
{
    let n: usize = domain.lde.size;
    let big_n: usize = domain.trace_length;
    proof {
        lemma2_to64();
        crate::constraints::lemma_pow2_strictly_increases_to(domain.lde.order as nat, 27);
        crate::constraints::lemma_pow2_strictly_increases_to(1, domain.blowup_order as nat);
        lemma_pow2_unfold(domain.lde.order as nat);
        assert(2 * big_n <= n) by (nonlinear_arith)
            requires
                n == big_n * domain.blowup,
                domain.blowup >= 2,
                big_n >= 0,
        ;
    }
    let hc = interpolate_on_coset(h_evals, &domain.lde);
    if !degree_below(hc.as_slice(), 2 * big_n) {
        return None;
    }
    let ghost low = hc@.subrange(0, 2 * big_n);
    let mut even_coeffs: Vec<u32> = Vec::new();
    let mut odd_coeffs: Vec<u32> = Vec::new();
    let mut i: usize = 0;
    while i < big_n
        invariant
            i <= big_n,
            2 * big_n <= n,
            n == hc@.len(),
            n <= 0x800_0000,
            low == hc@.subrange(0, 2 * big_n),
            even_coeffs@.len() == i,
            odd_coeffs@.len() == i,
            forall|j: int| 0 <= j < i ==> even_coeffs@[j] == evens(low)[j],
            forall|j: int| 0 <= j < i ==> odd_coeffs@[j] == odds(low)[j],
        decreases big_n - i,
    {
        even_coeffs.push(hc[2 * i]);
        odd_coeffs.push(hc[2 * i + 1]);
        i = i + 1;
    }
    proof {
        assert(even_coeffs@ =~= evens(low));
        assert(odd_coeffs@ =~= odds(low));
    }
    let squares = domain.lde.squared();
    let even_evals = evaluate_on_coset(even_coeffs.as_slice(), &squares);
    let odd_evals = evaluate_on_coset(odd_coeffs.as_slice(), &squares);
    let even_tree = match MerkleTree::build(even_evals.as_slice()) {
        Some(t) => t,
        None => {
            return None;
        },
    };
    let odd_tree = match MerkleTree::build(odd_evals.as_slice()) {
        Some(t) => t,
        None => {
            return None;
        },
    };
    proof {
        let h = domain.lde.offset as int;
        let k = domain.lde.order as nat;
        let half = (n / 2) as int;
        let m = p();
        assert forall|i: int| 0 <= i < n implies join_halves(
            even_evals@[i % half] as int,
            odd_evals@[i % half] as int,
            coset_point(n as nat, h, i as nat),
        ) == #[trigger] h_evals@[i] as int by {
            let x = coset_point(n as nat, h, i as nat);
            let sq = coset_point(half as nat, fmul(h, h, m), (i % half) as nat);
            lemma_mod_bound(i, half);
            crate::poly_eval::lemma_eval_truncate(hc@, 2 * big_n, x);
            crate::poly_eval::lemma_eval_even_odd(low, x);
            crate::coset::lemma_coset_point_squared(k, h, i as nat);
            crate::poly_eval::lemma_eval_cong_point(even_coeffs@, x * x, sq);
            crate::poly_eval::lemma_eval_cong_point(odd_coeffs@, x * x, sq);
            let e = poly_eval(even_coeffs@, sq);
            let o = poly_eval(odd_coeffs@, sq);
            lemma_add_mod_noop_right(e, x * o, m);
            assert(domain.lde.point_spec(i as nat) == x);
            crate::domain::lemma_small_mod_u32(h_evals@[i]);
            crate::poly_eval::lemma_eval_range(even_coeffs@, sq);
            crate::poly_eval::lemma_eval_range(odd_coeffs@, sq);
        }
    }
    Some(CompositionHalves { even_coeffs, odd_coeffs, even_evals, odd_evals, even_tree, odd_tree })
}

/// The value of the DEEP composition polynomial at point `i` of the
/// evaluation domain.
pub open spec fn deep_on_domain(
    lde: Seq<u32>,
    even_evals: Seq<u32>,
    odd_evals: Seq<u32>,
    oods: Seq<u32>,
    hz: int,
    z: int,
    gammas: Seq<u32>,
    ctx: AirContextView,
    i: int,
) -> int {
    let n = ctx.lde_size() as int;
    let x = coset_point(ctx.lde_size(), context_offset(ctx), i as nat);
    deep_value(
        window(lde, ctx, i).subrange(0, ctx.trace_columns as int),
        join_halves(even_evals[i % (n / 2)] as int, odd_evals[i % (n / 2)] as int, x),
        oods,
        hz,
        x,
        z,
        root_of_unity(ctx.trace_order()),
        gammas,
    )
}

/// The values of the DEEP composition polynomial on the evaluation domain.
pub fn deep_evaluations(
    lde: &[u32],
    even_evals: &[u32],
    odd_evals: &[u32],
    oods: &[u32],
    hz: u32,
    z: u32,
    gammas: &[u32],
    ctx: &AirContext,
    domain: &Domain,
) -> (r: Vec<u32>)
    requires
        ctx@.valid(),
        domain.of(ctx@),
        lde@.len() == ctx@.trace_columns * ctx@.lde_size(),
        even_evals@.len() == ctx@.lde_size() / 2,
        odd_evals@.len() == ctx@.lde_size() / 2,
        oods@.len() == FRAME_ROWS * ctx@.trace_columns,
        gammas@.len() == gamma_count(ctx@.trace_columns),
    ensures
        r@.len() == ctx@.lde_size(),
        canonical(r@),
        forall|i: int|
            0 <= i < r@.len() ==> #[trigger] r@[i] as int == deep_on_domain(
                lde@,
                even_evals@,
                odd_evals@,
                oods@,
                hz as int,
                z as int,
                gammas@,
                ctx@,
                i,
            ),
{
    proof {
        lemma_domain_bounds(*domain, ctx@);
    }
    let cols: usize = ctx.trace_columns;
    let n: usize = domain.lde.size;
    let half: usize = n / 2;
    let mut out: Vec<u32> = Vec::new();
    let mut i: usize = 0;
    while i < n
        invariant
            i <= n,
            ctx@.valid(),
            domain.of(ctx@),
            lde@.len() == cols * n,
            cols == ctx@.trace_columns,
            1 <= cols <= MAX_COLUMNS,
            n == domain.lde.size,
            n == ctx@.lde_size(),
            4 <= n <= 0x800_0000,
            half == n / 2,
            even_evals@.len() == half,
            odd_evals@.len() == half,
            oods@.len() == FRAME_ROWS * cols,
            gammas@.len() == gamma_count(cols as nat),
            out@.len() == i,
            canonical(out@),
            forall|j: int|
                0 <= j < i ==> #[trigger] out@[j] as int == deep_on_domain(
                    lde@,
                    even_evals@,
                    odd_evals@,
                    oods@,
                    hz as int,
                    z as int,
                    gammas@,
                    ctx@,
                    j,
                ),
        decreases n - i,
    {
        let mut row: Vec<u32> = Vec::new();
        let mut c: usize = 0;
        while c < cols
            invariant
                c <= cols,
                ctx@.valid(),
                lde@.len() == cols * n,
                cols == ctx@.trace_columns,
                1 <= cols <= MAX_COLUMNS,
                n == ctx@.lde_size(),
                4 <= n <= 0x800_0000,
                i < n,
                row@.len() == c,
                forall|s: int| 0 <= s < c ==> row@[s] == window(lde@, ctx@, i as int)[s],
            decreases cols - c,
        {
            proof {
                lemma_window_position(ctx@, i as int, c as int);
                assert(c * n + n <= cols * n) by (nonlinear_arith)
                    requires
                        c < cols,
                        n >= 0,
                ;
                assert(cols * n <= 16 * n) by (nonlinear_arith)
                    requires
                        cols <= 16,
                        n >= 0,
                ;
            }
            row.push(lde[c * n + i]);
            c = c + 1;
        }
        assert(row@ =~= window(lde@, ctx@, i as int).subrange(0, cols as int));
        let x: u32 = domain.lde.point(i);
        let hx: u32 = join_values(even_evals[i % half], odd_evals[i % half], x);
        let value: u32 = deep_at(
            row.as_slice(),
            hx,
            oods,
            hz,
            x,
            z,
            domain.trace_generator,
            gammas,
        );
        out.push(value);
        i = i + 1;
    }
    out
}

/// What the prover knows of its commitments when it turns to the queries:
/// the trees are those over the extended trace and over the values of the
/// two halves of the composition polynomial; the halves join to the value
/// of the composition polynomial at every point of the domain; and the
/// first layer of FRI holds the values of the DEEP composition polynomial.
pub open spec fn prover_holds<A: AIR>(
    air: &A,
    header: ProofHeader,
    lde: Seq<u32>,
    trace_tree: MerkleTree,
    halves: CompositionHalves,
    commit: FriCommitment,
    coeffs: Seq<u32>,
    z: u32,
    gammas: Seq<u32>,
    domain: Domain,
) -> bool {
    let ctx = air.context_view();
    let n = ctx.lde_size() as int;
    let input = commit.input@;
    &&& ctx.valid()
    &&& domain.of(ctx)
    &&& boundary_in_range(air.boundary_view(), ctx)
    &&& lde.len() == ctx.trace_columns * n
    &&& trace_tree.wf()
    &&& trace_tree@ == lde
    &&& header.trace_root == trace_tree.root
    &&& halves.even_tree.wf()
    &&& halves.even_tree@ == halves.even_evals@
    &&& halves.even_evals@.len() == n / 2
    &&& header.even_root == halves.even_tree.root
    &&& halves.odd_tree.wf()
    &&& halves.odd_tree@ == halves.odd_evals@
    &&& halves.odd_evals@.len() == n / 2
    &&& header.odd_root == halves.odd_tree.root
    &&& forall|i: int|
        0 <= i < n ==> join_halves(
            halves.even_evals@[i % (n / 2)] as int,
            halves.odd_evals@[i % (n / 2)] as int,
            coset_point(n as nat, context_offset(ctx), i as nat),
        ) == #[trigger] composition_on_domain(air, lde, coeffs, i)
    &&& commit.wf()
    &&& input.order == ctx.lde_order()
    &&& input.offset == context_offset(ctx)
    &&& input.rounds() == ctx.lde_order()
    &&& header.fri_roots == input.roots()
    &&& header.fri_last == input.last_value()
    &&& header.trace_ood.len() == FRAME_ROWS * ctx.trace_columns
    &&& gammas.len() == gamma_count(ctx.trace_columns)
    &&& forall|i: int|
        0 <= i < n ==> (#[trigger] input.evals(0)[i]) as int == deep_on_domain(
            lde,
            halves.even_evals@,
            halves.odd_evals@,
            header.trace_ood,
            join_halves(header.even_ood as int, header.odd_ood as int, z as int),
            z as int,
            gammas,
            ctx,
            i,
        )
}

/// The tree over `2^e` elements has height `e`.
pub proof fn lemma_tree_height_pow2(e: nat)
    ensures
        crate::merkle::tree_height(pow2(e)) == e,
{
    crate::merkle::lemma_tree_height(pow2(e));
    crate::fri::lemma_next_pow2_of_pow2(e);
    crate::roots_of_unity::lemma_pow2_injective(crate::merkle::tree_height(pow2(e)), e);
}

/// The openings that answer the query of index `q`.
fn answer_query<A: AIR>(
    air: &A,
    ctx: &AirContext,
    domain: &Domain,
    trace_tree: &MerkleTree,
    halves: &CompositionHalves,
    commit: &FriCommitment,
    q: usize,
    Ghost(header): Ghost<ProofHeader>,
    Ghost(coeffs): Ghost<Seq<u32>>,
    Ghost(z): Ghost<u32>,
    Ghost(gammas): Ghost<Seq<u32>>,
    Ghost(run): Ghost<ProverRun>,
) -> (r: QueryOpening)
    requires
        ctx@ == air.context_view(),
        run.lde == trace_tree@,
        run.even_evals == halves.even_evals@,
        run.odd_evals == halves.odd_evals@,
        run.fri == commit.input@,
        prover_holds(
            air,
            header,
            trace_tree@,
            *trace_tree,
            *halves,
            *commit,
            coeffs,
            z,
            gammas,
            *domain,
        ),
        q < domain.lde.size,
    ensures
        query_holds(air, header, coeffs, z, gammas, commit.input@.betas(), q as int, r),
        honest_opening(run, ctx@, q as int, r),
{
    proof {
        lemma_domain_bounds(*domain, ctx@);
    }
    let cols: usize = ctx.trace_columns;
    let n: usize = domain.lde.size;
    let b: usize = domain.blowup;
    let half: usize = n / 2;
    let ghost lde = trace_tree@;
    let ghost height = crate::merkle::tree_height((cols * n) as nat);
    let mut tp: Vec<Proof> = Vec::new();
    let mut t: usize = 0;
    while t < FRAME_ROWS * cols
        invariant
            t <= FRAME_ROWS * cols,
            ctx@.valid(),
            trace_tree.wf(),
            lde == trace_tree@,
            lde.len() == cols * n,
            cols == ctx@.trace_columns,
            1 <= cols <= MAX_COLUMNS,
            n == ctx@.lde_size(),
            4 <= n <= 0x800_0000,
            b == ctx@.options.blowup_factor,
            2 <= b <= 128,
            q < n,
            height == crate::merkle::tree_height((cols * n) as nat),
            tp@.len() == t,
            forall|s: int|
                0 <= s < t ==> (#[trigger] tp@[s]).value == lde[window_position(ctx@, q as int, s)],
            forall|s: int|
                0 <= s < t ==> is_opening_of(
                    #[trigger] tp@[s],
                    lde,
                    window_position(ctx@, q as int, s),
                ),
            forall|s: int|
                0 <= s < t ==> opens(
                    #[trigger] tp@[s],
                    trace_tree.root,
                    window_position(ctx@, q as int, s),
                    height,
                ),
        decreases FRAME_ROWS * cols - t,
    {
        proof {
            lemma_window_position(ctx@, q as int, t as int);
        }
        let col: usize = t % cols;
        let row: usize = t / cols;
        assert(col * n <= 15 * n && row * b <= 2 * b) by (nonlinear_arith)
            requires
                col < cols,
                cols <= 16,
                row < 3,
                n >= 0,
                b >= 0,
        ;
        let pos: usize = col * n + (q + row * b) % n;
        let opened = match trace_tree.get_proof_by_pos(pos) {
            Some(pr) => pr,
            None => Proof { value: 0, index: 0, merkle_path: Vec::new() },
        };
        proof {
            crate::merkle::lemma_path_height(lde, pos as int);
        }
        tp.push(opened);
        t = t + 1;
    }
    let q2: usize = q % half;
    let even_proof = match halves.even_tree.get_proof_by_pos(q2) {
        Some(pr) => pr,
        None => Proof { value: 0, index: 0, merkle_path: Vec::new() },
    };
    let odd_proof = match halves.odd_tree.get_proof_by_pos(q2) {
        Some(pr) => pr,
        None => Proof { value: 0, index: 0, merkle_path: Vec::new() },
    };
    let fri_decommitment = fri_decommit_layers(commit, q);
    proof {
        let ctx_v = air.context_view();
        let input = commit.input@;
        let k = ctx_v.lde_order();
        let h = context_offset(ctx_v);
        let paths = fri_decommitment.layer_merkle_paths@;
        let frame = opened_values(tp@);
        let x = coset_point(n as nat, h, q as nat);
        // the window
        assert(frame =~= window(lde, ctx_v, q as int));
        // the halves of the composition polynomial
        lemma_pow2_unfold(k);
        lemma_tree_height_pow2((k - 1) as nat);
        crate::merkle::lemma_path_height(halves.even_evals@, q2 as int);
        crate::merkle::lemma_path_height(halves.odd_evals@, q2 as int);
        assert(composition_on_domain(air, lde, coeffs, q as int) == join_halves(
            halves.even_evals@[q as int % (n as int / 2)] as int,
            halves.odd_evals@[q as int % (n as int / 2)] as int,
            x,
        ));
        // the first layer of FRI
        lemma_small_mod(q as nat, n as nat);
        assert(crate::fri::query_index(q as nat, k, 0) == q);
        assert(paths[0].0.value == input.evals(0)[q as int]);
        let deep = deep_on_domain(
            lde,
            halves.even_evals@,
            halves.odd_evals@,
            header.trace_ood,
            join_halves(header.even_ood as int, header.odd_ood as int, z as int),
            z as int,
            gammas,
            ctx_v,
            q as int,
        );
        assert(input.evals(0)[q as int] as int == deep);
        lemma_small_mod(input.evals(0)[q as int] as nat, p() as nat);
        // FRI
        crate::fri::lemma_fri_query_complete(
            input,
            domain.lde.offset_inv as int,
            q as nat,
            paths,
        );
    }
    QueryOpening {
        trace_lde_poly_inclusion_proofs: tp,
        composition_even_proof: even_proof,
        composition_odd_proof: odd_proof,
        fri_decommitment,
    }
}

/// The trace has the columns and the rows that the context announces.
pub open spec fn trace_fits(trace: &TraceTable, ctx: AirContextView) -> bool {
    &&& trace.columns@.len() == ctx.trace_columns
    &&& forall|c: int|
        0 <= c < trace.columns@.len() ==> (#[trigger] trace.columns@[c])@.len()
            == ctx.trace_length
}

/// Whether the trace has the shape that the context announces.
pub fn check_trace(trace: &TraceTable, ctx: &AirContext) -> (r: bool)
    ensures
        r == trace_fits(trace, ctx@),
{
    if trace.columns.len() != ctx.trace_columns {
        return false;
    }
    let mut c: usize = 0;
    while c < trace.columns.len()
        invariant
            c <= trace.columns@.len(),
            trace.columns@.len() == ctx@.trace_columns,
            forall|d: int| 0 <= d < c ==> (#[trigger] trace.columns@[d])@.len() == ctx@.trace_length,
        decreases trace.columns@.len() - c,
    {
        if trace.columns[c].len() != ctx.trace_length {
            return false;
        }
        c = c + 1;
    }
    true
}

/// The Merkle roots of the layers of a commitment.
pub fn collect_roots(commit: &FriCommitment) -> (r: Vec<u32>)
    requires
        commit.wf(),
    ensures
        r@ == commit.input@.roots(),
{
    let mut roots: Vec<u32> = Vec::new();
    let mut j: usize = 0;
    while j < commit.layers.len()
        invariant
            j <= commit.layers@.len(),
            commit.wf(),
            roots@.len() == j,
            forall|t: int| 0 <= t < j ==> roots@[t] == commit.input@.root(t as nat),
        decreases commit.layers@.len() - j,
    {
        proof {
            commit.layers@[j as int].merkle_tree.lemma_root();
        }
        roots.push(commit.layers[j].merkle_tree.root);
        j = j + 1;
    }
    assert(roots@ =~= commit.input@.roots());
    roots
}

/// The values of the trace polynomials at the out-of-domain points: entry
/// `t` is the value of the polynomial of column `t mod cols` at
/// `z * omega^(t / cols)`.
pub fn ood_evaluations(polys: &Vec<Vec<u32>>, z: u32, omega: u32) -> (r: Vec<u32>)
    requires
        1 <= polys@.len() <= MAX_COLUMNS,
    ensures
        r@.len() == FRAME_ROWS * polys@.len(),
        forall|t: int|
            0 <= t < r@.len() ==> r@[t] as int == poly_eval(
                polys@[t % (polys@.len() as int)]@,
                fmul(z as int, fpow(omega as int, (t / (polys@.len() as int)) as nat, p()), p()),
            ),
{
    let cols: usize = polys.len();
    let mut out: Vec<u32> = Vec::new();
    let mut t: usize = 0;
    while t < FRAME_ROWS * cols
        invariant
            t <= FRAME_ROWS * cols,
            cols == polys@.len(),
            1 <= cols <= MAX_COLUMNS,
            out@.len() == t,
            forall|s: int|
                0 <= s < t ==> out@[s] as int == poly_eval(
                    polys@[s % (cols as int)]@,
                    fmul(z as int, fpow(omega as int, (s / (cols as int)) as nat, p()), p()),
                ),
        decreases FRAME_ROWS * cols - t,
    {
        let shift: u32 = U32TestField::pow(&omega, (t / cols) as u64);
        let point: u32 = U32TestField::mul(&z, &shift);
        let value: u32 = evaluate(polys[t % cols].as_slice(), point);
        out.push(value);
        t = t + 1;
    }
    out
}


/// The error with which the prover refuses its inputs at once, if it
/// does: the defect of the context, an offset of the evaluation domain
/// that has no inverse, a boundary constraint outside the trace, or a
/// trace that does not have the shape that the context announces.
pub open spec fn refusal<A: AIR>(air: &A, trace: &TraceTable) -> Option<StarkError> {
    let ctx = air.context_view();
    if !ctx.valid() {
        ctx.defect()
    } else if !crate::coset::invertible(ctx.options.coset_offset as int) {
        Some(
            StarkError::DomainCreationError(
                crate::errors::FFTError::OffsetError(context_offset(ctx) as u32),
            ),
        )
    } else if !boundary_in_range(air.boundary_view(), ctx) {
        Some(StarkError::InvalidTraceShape)
    } else if !trace_fits(trace, ctx) {
        Some(StarkError::InvalidTraceShape)
    } else {
        None
    }
}

/// Proves that `trace` is a trace of the computation `air`. A proof that
/// is returned is accepted by the verifier.
pub fn prove_trace<A: AIR>(air: &A, trace: &TraceTable) -> (r: Result<StarkQueryProof, StarkError>)
    ensures
        refusal(air, trace) matches Some(e) ==> r == Err::<StarkQueryProof, StarkError>(e),
        refusal(air, trace) is None ==> (r is Ok <==> run_failure(
            honest_run(air, trace@),
            air.context_view(),
        ) is None),
        r matches Err(e) ==> refusal(air, trace) == Some(e) || (refusal(air, trace) is None
            && run_failure(honest_run(air, trace@), air.context_view()) == Some(e)),
        r matches Ok(pf) ==> honest_proof(air, trace@, pf) && proof_accepts(air, &pf),
        r matches Ok(pf) ==> crate::serialization::shaped(pf, air.context_view())
            && crate::serialization::elements_canonical(pf),
{
    let ctx = air.context();
    let bs = air.boundary_constraints();
    let domain = match Domain::new(&ctx) {
        Ok(d) => d,
        Err(e) => {
            return Err(e);
        },
    };
    if !crate::stark_verifier::check_boundary(&bs, &ctx) {
        return Err(StarkError::InvalidTraceShape);
    }
    if !check_trace(trace, &ctx) {
        return Err(StarkError::InvalidTraceShape);
    }
    proof {
        lemma_domain_bounds(domain, ctx@);
        crate::fft::lemma_log2_pow2(domain.trace_order as nat);
    }
    let cols: usize = ctx.trace_columns;
    let n: usize = domain.lde.size;
    let big_n: usize = domain.trace_length;
    let count: usize = 2 * ctx.num_transition_constraints + 2 * bs.constraints.len();
    let ghost ctx_v = air.context_view();
    let ghost count_s = coefficient_count(ctx_v, air.boundary_view());
    let ghost run = honest_run(air, trace@);
    // the trace
    let (polys, lde) = extend_trace(trace, &domain);
    proof {
        assert forall|c: int| 0 <= c < cols implies (#[trigger] polys@[c])@ == run.polys[c] by {
            assert(trace@[c] == trace.column(c));
        }
        assert forall|i: int| 0 <= i < cols * n implies lde@[i] == run.lde[i] by {
            let c = i / (n as int);
            let j = i % (n as int);
            lemma_fundamental_div_mod(i, n as int);
            lemma_mod_bound(i, n as int);
            lemma_div_pos_is_pos(i, n as int);
            assert(c < cols) by (nonlinear_arith)
                requires
                    i == n * c + j,
                    j >= 0,
                    i < cols * n,
                    n > 0,
            ;
            assert(0 <= c * n && c * n + n <= cols * n) by (nonlinear_arith)
                requires
                    0 <= c < cols,
                    n > 0,
            ;
            lemma_mul_is_commutative(c, n as int);
            assert(column_slice(lde@, n as int, c)[j] == lde@[c * n + j]);
            assert(polys@[c]@ == run.polys[c]);
        }
        assert(lde@ =~= run.lde);
    }
    let trace_tree = match MerkleTree::build(lde.as_slice()) {
        Some(t) => t,
        None => {
            proof {
                assert(cols * n >= 1) by (nonlinear_arith)
                    requires
                        cols >= 1,
                        n >= 1,
                ;
            }
            return Err(StarkError::InvalidTraceShape);
        },
    };
    let mut transcript = Transcript::new();
    transcript.absorb_field(trace_tree.root);
    // the composition polynomial
    let coeffs = transcript.challenge_fields(count);
    let h_evals = composition_evaluations(air, &ctx, &bs, &domain, lde.as_slice(), coeffs.as_slice());
    proof {
        assert(coeffs@ == run.coeffs);
        assert forall|i: int| 0 <= i < n implies h_evals@[i] == run.h_evals[i] by {
            assert(h_evals@[i] as int == composition_on_domain(air, lde@, coeffs@, i));
        }
        assert(h_evals@ =~= run.h_evals);
        assert(interpolated(h_evals@, domain.lde) == run.h_coeffs);
    }
    let halves = match commit_composition(h_evals.as_slice(), &domain) {
        Some(hv) => hv,
        None => {
            return Err(StarkError::ConstraintDegreeMismatch);
        },
    };
    proof {
        halves.even_tree.lemma_root();
        halves.odd_tree.lemma_root();
        assert(halves.even_coeffs@ == run.even_coeffs);
        assert(halves.odd_coeffs@ == run.odd_coeffs);
        assert(halves.even_evals@ == run.even_evals);
        assert(halves.odd_evals@ == run.odd_evals);
    }
    transcript.absorb_field(halves.even_tree.root);
    transcript.absorb_field(halves.odd_tree.root);
    // the out-of-domain point
    let z: u32 = draw_point(&mut transcript, &ctx, &domain);
    let zn: u32 = U32TestField::pow(&z, n as u64);
    let hn: u32 = U32TestField::pow(&domain.lde.offset, n as u64);
    proof {
        assert(z == run.z);
    }
    if zn == hn {
        return Err(StarkError::OutOfDomainViolation);
    }
    let oods = ood_evaluations(&polys, z, domain.trace_generator);
    let z2: u32 = U32TestField::mul(&z, &z);
    let even_ood: u32 = evaluate(halves.even_coeffs.as_slice(), z2);
    let odd_ood: u32 = evaluate(halves.odd_coeffs.as_slice(), z2);
    transcript.absorb_fields(oods.as_slice());
    transcript.absorb_field(even_ood);
    transcript.absorb_field(odd_ood);
    proof {
        assert forall|t: int| 0 <= t < FRAME_ROWS * cols implies oods@[t]
            == run.header.trace_ood[t] by {
            lemma_mod_bound(t, cols as int);
            assert(polys@[t % (cols as int)]@ == run.polys[t % (cols as int)]);
        }
        assert(oods@ =~= run.header.trace_ood);
        assert(even_ood == run.header.even_ood);
        assert(odd_ood == run.header.odd_ood);
    }
    // the DEEP composition polynomial
    let gammas = transcript.challenge_fields(FRAME_ROWS * cols + 1);
    let hz: u32 = join_values(even_ood, odd_ood, z);
    let deep = deep_evaluations(
        lde.as_slice(),
        halves.even_evals.as_slice(),
        halves.odd_evals.as_slice(),
        oods.as_slice(),
        hz,
        z,
        gammas.as_slice(),
        &ctx,
        &domain,
    );
    proof {
        assert(gammas@ == run.gammas);
        assert forall|i: int| 0 <= i < n implies deep@[i] == run.deep[i] by {
            assert(deep@[i] as int == deep_on_domain(
                lde@,
                halves.even_evals@,
                halves.odd_evals@,
                oods@,
                hz as int,
                z as int,
                gammas@,
                ctx_v,
                i,
            ));
        }
        assert(deep@ =~= run.deep);
    }
    let dc = interpolate_on_coset(deep.as_slice(), &domain.lde);
    proof {
        assert(dc@ == run.deep_coeffs);
    }
    proof {
        assert(2 * big_n <= n) by (nonlinear_arith)
            requires
                n == big_n * domain.blowup,
                domain.blowup >= 2,
                big_n >= 0,
        ;
    }
    if !degree_below(dc.as_slice(), 2 * big_n) {
        return Err(StarkError::FriLastLayerInvalid);
    }
    let ghost fri_start = transcript@;
    let commit = fri_commit_phase(dc.as_slice(), &domain.lde, &mut transcript);
    assert(crate::poly_eval::pad_zeros(dc@, 0) =~= dc@);
    let fri_roots = collect_roots(&commit);
    let ghost header = ProofHeader {
        trace_root: trace_tree.root,
        even_root: halves.even_tree.root,
        odd_root: halves.odd_tree.root,
        trace_ood: oods@,
        even_ood,
        odd_ood,
        fri_roots: fri_roots@,
        fri_last: commit.last_value,
    };
    proof {
        let input = commit.input@;
        assert(fri_start == header.stage_fri(count_s, ctx_v));
        assert(input == run.fri);
        assert(header == run.header);
        crate::fri::lemma_verifier_betas(input);
        assert(transcript@ == header.stage_queries(count_s, ctx_v));
        assert(input.betas() == header.fri_betas(count_s, ctx_v));
        // the first layer of FRI holds the DEEP composition polynomial
        assert forall|i: int| 0 <= i < n implies (#[trigger] input.evals(0)[i]) as int
            == deep_on_domain(
            lde@,
            halves.even_evals@,
            halves.odd_evals@,
            oods@,
            hz as int,
            z as int,
            gammas@,
            ctx_v,
            i,
        ) by {
            let x = coset_point(n as nat, domain.lde.offset as int, i as nat);
            crate::domain::lemma_small_mod_u32(deep@[i]);
            assert(domain.lde.point_spec(i as nat) == x);
            assert(deep@[i] as int == deep_on_domain(
                lde@,
                halves.even_evals@,
                halves.odd_evals@,
                oods@,
                hz as int,
                z as int,
                gammas@,
                ctx_v,
                i,
            ));
        }
        assert forall|i: int| 0 <= i < n implies join_halves(
            halves.even_evals@[i % (n as int / 2)] as int,
            halves.odd_evals@[i % (n as int / 2)] as int,
            coset_point(n as nat, context_offset(ctx_v), i as nat),
        ) == #[trigger] composition_on_domain(air, lde@, coeffs@, i) by {
            assert(h_evals@[i] as int == composition_on_domain(air, lde@, coeffs@, i));
        }
        trace_tree.lemma_root();
    }
    // the queries
    let mut query_openings: Vec<QueryOpening> = Vec::new();
    let mut i: usize = 0;
    let ghost start = transcript@;
    while i < ctx.options.fri_number_of_queries
        invariant
            i <= ctx@.options.fri_number_of_queries,
            ctx@ == air.context_view(),
            ctx_v == air.context_view(),
            n == domain.lde.size,
            n == ctx_v.lde_size(),
            n >= 4,
            cols == ctx_v.trace_columns,
            count_s == coefficient_count(ctx_v, air.boundary_view()),
            start == header.stage_queries(count_s, ctx_v),
            transcript@ == crate::transcript::squeezed_times(start, i as nat),
            prover_holds(
                air,
                header,
                trace_tree@,
                trace_tree,
                halves,
                commit,
                coeffs@,
                z,
                gammas@,
                domain,
            ),
            query_openings@.len() == i,
            run.lde == trace_tree@,
            run.even_evals == halves.even_evals@,
            run.odd_evals == halves.odd_evals@,
            run.fri == commit.input@,
            forall|j: int|
                0 <= j < i ==> honest_opening(
                    run,
                    ctx_v,
                    header.query_index(count_s, ctx_v, j as nat, n as nat) as int,
                    #[trigger] query_openings@[j],
                ),
            forall|j: int|
                0 <= j < i ==> query_holds(
                    air,
                    header,
                    coeffs@,
                    z,
                    gammas@,
                    commit.input@.betas(),
                    header.query_index(count_s, ctx_v, j as nat, n as nat) as int,
                    #[trigger] query_openings@[j],
                ),
        decreases ctx@.options.fri_number_of_queries - i,
    {
        let q: usize = transcript.challenge_index(n);
        let opening = answer_query(
            air,
            &ctx,
            &domain,
            &trace_tree,
            &halves,
            &commit,
            q,
            Ghost(header),
            Ghost(coeffs@),
            Ghost(z),
            Ghost(gammas@),
            Ghost(run),
        );
        query_openings.push(opening);
        i = i + 1;
    }
    let last_value: u32 = commit.last_value;
    let pf = StarkQueryProof {
        trace_lde_poly_root: trace_tree.root,
        composition_even_root: halves.even_tree.root,
        composition_odd_root: halves.odd_tree.root,
        trace_ood_evaluations: oods,
        composition_even_ood: even_ood,
        composition_odd_ood: odd_ood,
        fri_layers_merkle_roots: fri_roots,
        fri_last_value: last_value,
        query_openings,
    };
    proof {
        assert(pf.header() == header);
        assert(honest_proof(air, trace@, pf));
        crate::honest::lemma_honest_proof_decodable(air, trace@, pf);
        assert(coeffs@ == header.coefficients(count_s));
        assert(z == header.z(count_s, ctx_v));
        assert(gammas@ == header.gammas(count_s, ctx_v));
        assert forall|j: int| 0 <= j < pf.query_openings@.len() implies query_accepts(
            air,
            &pf,
            j,
        ) by {
            assert(query_holds(
                air,
                header,
                coeffs@,
                z,
                gammas@,
                commit.input@.betas(),
                header.query_index(count_s, ctx_v, j as nat, n as nat) as int,
                pf.query_openings@[j],
            ));
        }
    }
    Ok(pf)
}

} // verus!
