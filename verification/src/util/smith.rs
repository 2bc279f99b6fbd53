//! The pseudo Smith form of a matrix over Z/N.
//!
//! A round picks the least nonzero entry outside the rows and columns already
//! dealt with (the pivot), clears the pivot column by row operations, then the
//! pivot row by column operations, and marks the pivot's column and row done.
//! The row operations are recorded in `u`, the column operations in `v`.
use vstd::prelude::*;
use vstd::arithmetic::mul::*;
use std::collections::BTreeSet;
use vstd::arithmetic::div_mod::*;
use crate::util::number::spec_gcd;
use crate::rmodule::ring::{lemma_add_zeros, lemma_clear_entry, lemma_mul_zero_left, lemma_ops_wf, Fin};
use crate::util::matrix::{
    col_added, col_added_ok, col_partner, identity_entries, in_col, in_row, row_partner, is_candidate, lemma_smallest_candidate, row_added,
    row_added_ok, scaled_col, scaled_col_ok, scaled_row, scaled_row_ok, smallest_candidate, Matrix,
};

verus! {

broadcast use vstd::std_specs::btree::group_btree_axioms;

/// The buffers of the matrix being reduced and of one of the two matrices
/// that record the operations.
pub type Pair<const N: u16> = (Seq<Fin<N>>, Seq<Fin<N>>);

/// The buffers of the matrix being reduced, of the record of row operations
/// and of the record of column operations.
pub type Triple<const N: u16> = (Seq<Fin<N>>, Seq<Fin<N>>, Seq<Fin<N>>);

/* # one round */

/// The row step for row `row` of a round with pivot (`mc`, `mr`) of value
/// `m`, on a `cols` by `rows` matrix `s` and its `rows` by `rows` record `u`.
///
/// When the entry `x` of the pivot column in that row is not zero: unless
/// `m` divides `x`, the row is multiplied by `m / gcd(x, m)` (and the row of
/// `u` by `m`); then `x / gcd(x, m)` times the pivot row is subtracted.
pub open spec fn row_step<const N: u16>(su: Pair<N>, cols: int, rows: int, mc: int, mr: int, m: Fin<N>, row: int) -> Pair<N> {
    let (s, u) = su;
    let x = s[row * cols + mc];
    if row == mr || x.raw() == N {
        su
    } else {
        let g = Fin::spec_gcd_of(x, m);
        let q = Fin::spec_neg(Fin::spec_divide_by(x, g));
        let scale = Fin::spec_rem(x, m).raw() != N;
        let s1 = if scale { scaled_row(s, cols, row, Fin::spec_divide_by(m, g)) } else { s };
        let u1 = if scale { scaled_row(u, rows, row, m) } else { u };
        (row_added(s1, cols, mr, row, q), row_added(u1, rows, mr, row, q))
    }
}

/// The row step computes in range: no index of a row and no sum or product
/// of representatives leaves `u8` and `u16`.
pub open spec fn row_step_ok<const N: u16>(su: Pair<N>, cols: int, rows: int, mc: int, mr: int, m: Fin<N>, row: int) -> bool {
    let (s, u) = su;
    let x = s[row * cols + mc];
    row == mr || x.raw() == N || {
        let g = Fin::spec_gcd_of(x, m);
        let q = Fin::spec_neg(Fin::spec_divide_by(x, g));
        let scale = Fin::spec_rem(x, m).raw() != N;
        let s1 = if scale { scaled_row(s, cols, row, Fin::spec_divide_by(m, g)) } else { s };
        let u1 = if scale { scaled_row(u, rows, row, m) } else { u };
        &&& mr * rows <= u8::MAX
        &&& row * rows <= u8::MAX
        &&& scale ==> scaled_row_ok(s, cols, row, Fin::spec_divide_by(m, g)) && scaled_row_ok(u, rows, row, m)
        &&& row_added_ok(s1, cols, mr, row, q)
        &&& row_added_ok(u1, rows, mr, row, q)
    }
}

/// The row steps for the rows `0..n`, in that order.
pub open spec fn row_phase<const N: u16>(su: Pair<N>, cols: int, rows: int, mc: int, mr: int, m: Fin<N>, n: int) -> Pair<N>
    decreases n,
{
    if n <= 0 {
        su
    } else {
        row_step(row_phase(su, cols, rows, mc, mr, m, n - 1), cols, rows, mc, mr, m, n - 1)
    }
}

pub open spec fn row_phase_ok<const N: u16>(su: Pair<N>, cols: int, rows: int, mc: int, mr: int, m: Fin<N>, n: int) -> bool
    decreases n,
{
    n <= 0 || {
        &&& row_phase_ok(su, cols, rows, mc, mr, m, n - 1)
        &&& row_step_ok(row_phase(su, cols, rows, mc, mr, m, n - 1), cols, rows, mc, mr, m, n - 1)
    }
}

/// The column step for column `col` of a round with pivot (`mc`, `mr`) of
/// value `m`, on a `cols` by `rows` matrix `s` and its `cols` by `cols`
/// record `v`; the same as the row step, with columns for rows.
pub open spec fn col_step<const N: u16>(sv: Pair<N>, cols: int, rows: int, mc: int, mr: int, m: Fin<N>, col: int) -> Pair<N> {
    let (s, v) = sv;
    let x = s[mr * cols + col];
    if col == mc || x.raw() == N {
        sv
    } else {
        let g = Fin::spec_gcd_of(x, m);
        let q = Fin::spec_neg(Fin::spec_divide_by(x, g));
        let scale = Fin::spec_rem(x, m).raw() != N;
        let s1 = if scale { scaled_col(s, cols, rows, col, Fin::spec_divide_by(m, g)) } else { s };
        let v1 = if scale { scaled_col(v, cols, cols, col, m) } else { v };
        (col_added(s1, cols, rows, mc, col, q), col_added(v1, cols, cols, mc, col, q))
    }
}

pub open spec fn col_step_ok<const N: u16>(sv: Pair<N>, cols: int, rows: int, mc: int, mr: int, m: Fin<N>, col: int) -> bool {
    let (s, v) = sv;
    let x = s[mr * cols + col];
    col == mc || x.raw() == N || {
        let g = Fin::spec_gcd_of(x, m);
        let q = Fin::spec_neg(Fin::spec_divide_by(x, g));
        let scale = Fin::spec_rem(x, m).raw() != N;
        let s1 = if scale { scaled_col(s, cols, rows, col, Fin::spec_divide_by(m, g)) } else { s };
        let v1 = if scale { scaled_col(v, cols, cols, col, m) } else { v };
        &&& scale ==> scaled_col_ok(s, cols, rows, col, Fin::spec_divide_by(m, g)) && scaled_col_ok(v, cols, cols, col, m)
        &&& col_added_ok(s1, cols, rows, mc, col, q)
        &&& col_added_ok(v1, cols, cols, mc, col, q)
    }
}

/// The column steps for the columns `0..n`, in that order.
pub open spec fn col_phase<const N: u16>(sv: Pair<N>, cols: int, rows: int, mc: int, mr: int, m: Fin<N>, n: int) -> Pair<N>
    decreases n,
{
    if n <= 0 {
        sv
    } else {
        col_step(col_phase(sv, cols, rows, mc, mr, m, n - 1), cols, rows, mc, mr, m, n - 1)
    }
}

pub open spec fn col_phase_ok<const N: u16>(sv: Pair<N>, cols: int, rows: int, mc: int, mr: int, m: Fin<N>, n: int) -> bool
    decreases n,
{
    n <= 0 || {
        &&& col_phase_ok(sv, cols, rows, mc, mr, m, n - 1)
        &&& col_step_ok(col_phase(sv, cols, rows, mc, mr, m, n - 1), cols, rows, mc, mr, m, n - 1)
    }
}

/// A round with pivot (`mc`, `mr`): all row steps, then all column steps.
pub open spec fn smith_round<const N: u16>(st: Triple<N>, cols: int, rows: int, mc: int, mr: int) -> Triple<N> {
    let (s, u, v) = st;
    let m = s[mr * cols + mc];
    let (s1, u1) = row_phase((s, u), cols, rows, mc, mr, m, rows);
    let (s2, v1) = col_phase((s1, v), cols, rows, mc, mr, m, cols);
    (s2, u1, v1)
}

pub open spec fn smith_round_ok<const N: u16>(st: Triple<N>, cols: int, rows: int, mc: int, mr: int) -> bool {
    let (s, u, v) = st;
    let m = s[mr * cols + mc];
    let (s1, u1) = row_phase((s, u), cols, rows, mc, mr, m, rows);
    &&& row_phase_ok((s, u), cols, rows, mc, mr, m, rows)
    &&& col_phase_ok((s1, v), cols, rows, mc, mr, m, cols)
}

/* # the rounds */

/// At most `k` rounds, each with the least nonzero entry outside the done
/// columns `dc` and rows `dr` as pivot; they stop early when there is none.
pub open spec fn smith_run<const N: u16>(st: Triple<N>, dc: Set<u8>, dr: Set<u8>, cols: int, rows: int, k: nat) -> Triple<N>
    decreases k,
{
    if k == 0 {
        st
    } else {
        match smallest_candidate(st.0, cols, rows, dc, dr) {
            None => st,
            Some((mc, mr)) => smith_run(
                smith_round(st, cols, rows, mc as int, mr as int),
                dc.insert(mc),
                dr.insert(mr),
                cols,
                rows,
                (k - 1) as nat,
            ),
        }
    }
}

/// Every round of `smith_run` computes in range.
pub open spec fn smith_run_ok<const N: u16>(st: Triple<N>, dc: Set<u8>, dr: Set<u8>, cols: int, rows: int, k: nat) -> bool
    decreases k,
{
    k == 0 || match smallest_candidate(st.0, cols, rows, dc, dr) {
        None => true,
        Some((mc, mr)) => {
            &&& smith_round_ok(st, cols, rows, mc as int, mr as int)
            &&& smith_run_ok(
                smith_round(st, cols, rows, mc as int, mr as int),
                dc.insert(mc),
                dr.insert(mr),
                cols,
                rows,
                (k - 1) as nat,
            )
        }
    }
}

/// The number of rounds: the smaller of the two dimensions.
pub open spec fn smith_rounds(cols: int, rows: int) -> nat {
    (if rows < cols { rows } else { cols }) as nat
}

/// What `pseudo_smith` computes on a buffer `e` of `cols` columns and `rows`
/// rows: the reduced buffer, the record of row operations (starting from the
/// `rows` by `rows` identity) and of column operations (starting from the
/// `cols` by `cols` identity).
pub open spec fn smith_result<const N: u16>(e: Seq<Fin<N>>, cols: int, rows: int) -> Triple<N> {
    smith_run(
        (e, identity_entries::<N>(rows, rows), identity_entries::<N>(cols, cols)),
        Set::empty(),
        Set::empty(),
        cols,
        rows,
        smith_rounds(cols, rows),
    )
}

pub open spec fn smith_result_ok<const N: u16>(e: Seq<Fin<N>>, cols: int, rows: int) -> bool {
    smith_run_ok(
        (e, identity_entries::<N>(rows, rows), identity_entries::<N>(cols, cols)),
        Set::empty(),
        Set::empty(),
        cols,
        rows,
        smith_rounds(cols, rows),
    )
}

/* # computing in range */

/// Every entry is well formed.
pub open spec fn all_wf<const N: u16>(e: Seq<Fin<N>>) -> bool {
    forall|i: int| 0 <= i < e.len() ==> (#[trigger] e[i]).wf()
}

/// Representatives of elements of Z/N with `N <= 255` multiply within
/// `u16`, and add within it.
proof fn lemma_small_ops<const N: u16>(a: Fin<N>, b: Fin<N>)
    requires
        0 < N <= 255,
        a.wf(),
        b.wf(),
    ensures
        a.raw() * b.raw() <= u16::MAX,
        a.raw() + b.raw() <= u16::MAX,
        Fin::spec_mul(a, b).wf(),
        Fin::spec_add(a, b).wf(),
{
    a.lemma_wf();
    b.lemma_wf();
    lemma_mul_upper_bound(a.raw(), 255, b.raw(), 255);
    lemma_ops_wf(a, b);
}

/// What a step computes from well formed entries is well formed.
proof fn lemma_step_values_wf<const N: u16>(x: Fin<N>, m: Fin<N>)
    requires
        N > 0,
        m.wf(),
    ensures
        Fin::spec_gcd_of(x, m).wf(),
        Fin::spec_neg(Fin::spec_divide_by(x, Fin::spec_gcd_of(x, m))).wf(),
        Fin::spec_divide_by(m, Fin::spec_gcd_of(x, m)).wf(),
{
    let g = Fin::spec_gcd_of(x, m);
    Fin::<N>::lemma_from_int(spec_gcd(x.raw() as nat, m.raw() as nat) as int);
    Fin::<N>::lemma_from_int(N - Fin::spec_divide_by(x, g).raw());
    if m.raw() % g.raw() == 0 {
        Fin::<N>::lemma_from_int(m.raw() / g.raw());
    }
}

proof fn lemma_scaled_row_wf<const N: u16>(e: Seq<Fin<N>>, cols: int, row: int, r: Fin<N>)
    requires
        0 < N <= 255,
        all_wf(e),
        r.wf(),
    ensures
        scaled_row_ok(e, cols, row, r),
        all_wf(scaled_row(e, cols, row, r)),
        scaled_row(e, cols, row, r).len() == e.len(),
{
    assert forall|i: int| 0 <= i < e.len() implies #[trigger] e[i].raw() * r.raw() <= u16::MAX && Fin::spec_mul(e[i], r).wf() by {
        lemma_small_ops(e[i], r);
    }
}

proof fn lemma_scaled_col_wf<const N: u16>(e: Seq<Fin<N>>, cols: int, rows: int, col: int, r: Fin<N>)
    requires
        0 < N <= 255,
        all_wf(e),
        r.wf(),
    ensures
        scaled_col_ok(e, cols, rows, col, r),
        all_wf(scaled_col(e, cols, rows, col, r)),
        scaled_col(e, cols, rows, col, r).len() == e.len(),
{
    assert forall|i: int| 0 <= i < e.len() implies #[trigger] e[i].raw() * r.raw() <= u16::MAX && Fin::spec_mul(e[i], r).wf() by {
        lemma_small_ops(e[i], r);
    }
}

proof fn lemma_row_added_wf<const N: u16>(e: Seq<Fin<N>>, cols: int, src: int, dst: int, r: Fin<N>)
    requires
        0 < N <= 255,
        all_wf(e),
        r.wf(),
        0 <= src,
        0 <= cols,
    ensures
        row_added_ok(e, cols, src, dst, r),
        all_wf(row_added(e, cols, src, dst, r)),
        row_added(e, cols, src, dst, r).len() == e.len(),
{
    let out = row_added(e, cols, src, dst, r);
    assert(out.len() == e.len());
    assert forall|i: int| 0 <= i < e.len() && in_row(i, cols, dst) && row_partner(i, cols, src, dst) < e.len() implies {
        &&& #[trigger] e[row_partner(i, cols, src, dst)].raw() * r.raw() <= u16::MAX
        &&& e[i].raw() + Fin::spec_mul(e[row_partner(i, cols, src, dst)], r).raw() <= u16::MAX
    } by {
        let j = row_partner(i, cols, src, dst);
        assert(0 <= j);
        lemma_small_ops(e[j], r);
        lemma_small_ops(e[i], Fin::spec_mul(e[j], r));
    }
    assert forall|i: int| 0 <= i < out.len() implies (#[trigger] out[i]).wf() by {
        if in_row(i, cols, dst) && row_partner(i, cols, src, dst) < e.len() {
            let j = row_partner(i, cols, src, dst);
            assert(0 <= j);
            lemma_small_ops(e[j], r);
            lemma_small_ops(e[i], Fin::spec_mul(e[j], r));
        }
    }
}

proof fn lemma_col_added_wf<const N: u16>(e: Seq<Fin<N>>, cols: int, rows: int, src: int, dst: int, r: Fin<N>)
    requires
        0 < N <= 255,
        all_wf(e),
        r.wf(),
        0 <= src,
    ensures
        col_added_ok(e, cols, rows, src, dst, r),
        all_wf(col_added(e, cols, rows, src, dst, r)),
        col_added(e, cols, rows, src, dst, r).len() == e.len(),
{
    let out = col_added(e, cols, rows, src, dst, r);
    assert(out.len() == e.len());
    assert forall|i: int| 0 <= i < e.len() && in_col(i, cols, rows, dst) && col_partner(i, cols, src, dst) < e.len() implies {
        &&& #[trigger] e[col_partner(i, cols, src, dst)].raw() * r.raw() <= u16::MAX
        &&& e[i].raw() + Fin::spec_mul(e[col_partner(i, cols, src, dst)], r).raw() <= u16::MAX
    } by {
        let j = col_partner(i, cols, src, dst);
        assert(0 <= j);
        lemma_small_ops(e[j], r);
        lemma_small_ops(e[i], Fin::spec_mul(e[j], r));
    }
    assert forall|i: int| 0 <= i < out.len() implies (#[trigger] out[i]).wf() by {
        if in_col(i, cols, rows, dst) && col_partner(i, cols, src, dst) < e.len() {
            let j = col_partner(i, cols, src, dst);
            assert(0 <= j);
            lemma_small_ops(e[j], r);
            lemma_small_ops(e[i], Fin::spec_mul(e[j], r));
        }
    }
}

proof fn lemma_row_phase_in_range<const N: u16>(su: Pair<N>, cols: int, rows: int, mc: int, mr: int, m: Fin<N>, n: int)
    requires
        0 < N <= 255,
        all_wf(su.0),
        all_wf(su.1),
        m.wf(),
        0 <= mr < rows <= 16,
        0 <= cols,
        n <= rows,
    ensures
        row_phase_ok(su, cols, rows, mc, mr, m, n),
        all_wf(row_phase(su, cols, rows, mc, mr, m, n).0),
        all_wf(row_phase(su, cols, rows, mc, mr, m, n).1),
        row_phase(su, cols, rows, mc, mr, m, n).0.len() == su.0.len(),
    decreases n,
{
    if n > 0 {
        lemma_row_phase_in_range(su, cols, rows, mc, mr, m, n - 1);
        let (s, u) = row_phase(su, cols, rows, mc, mr, m, n - 1);
        let row = n - 1;
        let x = s[row * cols + mc];
        if !(row == mr || x.raw() == N) {
            lemma_step_values_wf(x, m);
            let g = Fin::spec_gcd_of(x, m);
            let q = Fin::spec_neg(Fin::spec_divide_by(x, g));
            let d = Fin::spec_divide_by(m, g);
            lemma_scaled_row_wf(s, cols, row, d);
            lemma_scaled_row_wf(u, rows, row, m);
            let scale = Fin::spec_rem(x, m).raw() != N;
            let s1 = if scale { scaled_row(s, cols, row, d) } else { s };
            let u1 = if scale { scaled_row(u, rows, row, m) } else { u };
            lemma_row_added_wf(s1, cols, mr, row, q);
            lemma_row_added_wf(u1, rows, mr, row, q);
            assert(mr * rows <= u8::MAX) by (nonlinear_arith)
                requires
                    0 <= mr < rows <= 16,
            ;
            assert(row * rows <= u8::MAX) by (nonlinear_arith)
                requires
                    0 <= row < rows <= 16,
            ;
        }
    }
}

proof fn lemma_col_phase_in_range<const N: u16>(sv: Pair<N>, cols: int, rows: int, mc: int, mr: int, m: Fin<N>, n: int)
    requires
        0 < N <= 255,
        all_wf(sv.0),
        all_wf(sv.1),
        m.wf(),
        0 <= mc,
    ensures
        col_phase_ok(sv, cols, rows, mc, mr, m, n),
        all_wf(col_phase(sv, cols, rows, mc, mr, m, n).0),
        all_wf(col_phase(sv, cols, rows, mc, mr, m, n).1),
        col_phase(sv, cols, rows, mc, mr, m, n).0.len() == sv.0.len(),
    decreases n,
{
    if n > 0 {
        lemma_col_phase_in_range(sv, cols, rows, mc, mr, m, n - 1);
        let (s, v) = col_phase(sv, cols, rows, mc, mr, m, n - 1);
        let col = n - 1;
        let x = s[mr * cols + col];
        if !(col == mc || x.raw() == N) {
            lemma_step_values_wf(x, m);
            let g = Fin::spec_gcd_of(x, m);
            let q = Fin::spec_neg(Fin::spec_divide_by(x, g));
            let d = Fin::spec_divide_by(m, g);
            lemma_scaled_col_wf(s, cols, rows, col, d);
            lemma_scaled_col_wf(v, cols, cols, col, m);
            let scale = Fin::spec_rem(x, m).raw() != N;
            let s1 = if scale { scaled_col(s, cols, rows, col, d) } else { s };
            let v1 = if scale { scaled_col(v, cols, cols, col, m) } else { v };
            lemma_col_added_wf(s1, cols, rows, mc, col, q);
            lemma_col_added_wf(v1, cols, cols, mc, col, q);
        }
    }
}

proof fn lemma_run_in_range<const N: u16>(st: Triple<N>, dc: Set<u8>, dr: Set<u8>, cols: int, rows: int, k: nat)
    requires
        0 < N <= 255,
        0 <= cols <= 255,
        0 <= rows <= 16,
        cols * rows <= st.0.len(),
        all_wf(st.0),
        all_wf(st.1),
        all_wf(st.2),
    ensures
        smith_run_ok(st, dc, dr, cols, rows, k),
    decreases k,
{
    if k > 0 {
        lemma_smallest_candidate(st.0, cols, rows, dc, dr);
        if let Some((mc, mr)) = smallest_candidate(st.0, cols, rows, dc, dr) {
            let (mc, mr) = (mc as int, mr as int);
            let (s, u, v) = st;
            assert(0 <= mr * cols + mc < cols * rows) by (nonlinear_arith)
                requires
                    0 <= mc < cols,
                    0 <= mr < rows,
            ;
            let m = s[mr * cols + mc];
            lemma_row_phase_in_range((s, u), cols, rows, mc, mr, m, rows);
            let (s1, u1) = row_phase((s, u), cols, rows, mc, mr, m, rows);
            lemma_col_phase_in_range((s1, v), cols, rows, mc, mr, m, cols);
            lemma_run_in_range(smith_round(st, cols, rows, mc, mr), dc.insert(mc as u8), dr.insert(mr as u8), cols, rows, (k - 1) as nat);
        }
    }
}

/// Every element of `v` is well formed, as every value of `Fin` is.
fn entries_are_wf<const N: u16>(v: &Vec<Fin<N>>)
    ensures
        all_wf(v@),
{
    let mut i: usize = 0;
    while i < v.len()
        invariant
            i <= v@.len(),
            forall|k: int| 0 <= k < i ==> (#[trigger] v@[k]).wf(),
        decreases v@.len() - i,
    {
        let _ = v[i].get();
        i = i + 1;
    }
}

/// On a matrix over Z/N with `N <= 255` and at most 16 rows, every step of
/// `pseudo_smith` computes in range.
pub proof fn lemma_smith_in_range<const N: u16>(e: Seq<Fin<N>>, cols: int, rows: int)
    requires
        0 < N <= 255,
        0 <= cols <= 255,
        0 <= rows <= 16,
        cols * rows <= e.len(),
        all_wf(e),
    ensures
        smith_result_ok(e, cols, rows),
{
    let (u, v) = (identity_entries::<N>(rows, rows), identity_entries::<N>(cols, cols));
    assert forall|i: int| 0 <= i < u.len() implies (#[trigger] u[i]).wf() by {
        Fin::<N>::lemma_from_int(1);
        Fin::<N>::lemma_from_int(0);
    }
    assert forall|i: int| 0 <= i < v.len() implies (#[trigger] v[i]).wf() by {
        Fin::<N>::lemma_from_int(1);
        Fin::<N>::lemma_from_int(0);
    }
    lemma_run_in_range((e, u, v), Set::empty(), Set::empty(), cols, rows, smith_rounds(cols, rows));
}

/* # lemmas */

proof fn lemma_row_phase_ok_prefix<const N: u16>(su: Pair<N>, cols: int, rows: int, mc: int, mr: int, m: Fin<N>, k: int, n: int)
    requires
        0 <= k <= n,
        row_phase_ok(su, cols, rows, mc, mr, m, n),
    ensures
        row_phase_ok(su, cols, rows, mc, mr, m, k),
    decreases n - k,
{
    if k < n {
        lemma_row_phase_ok_prefix(su, cols, rows, mc, mr, m, k, n - 1);
    }
}

proof fn lemma_col_phase_ok_prefix<const N: u16>(sv: Pair<N>, cols: int, rows: int, mc: int, mr: int, m: Fin<N>, k: int, n: int)
    requires
        0 <= k <= n,
        col_phase_ok(sv, cols, rows, mc, mr, m, n),
    ensures
        col_phase_ok(sv, cols, rows, mc, mr, m, k),
    decreases n - k,
{
    if k < n {
        lemma_col_phase_ok_prefix(sv, cols, rows, mc, mr, m, k, n - 1);
    }
}

/// In a matrix of at most 256 entries every position index fits in a `u8`.
proof fn lemma_index_bound(c: int, r: int, cols: int, rows: int)
    requires
        0 <= c < cols,
        0 <= r < rows,
        cols * rows <= 256,
    ensures
        r * cols + c <= u8::MAX,
        r * cols + c < cols * rows,
        r * cols <= u8::MAX,
        c + cols * r == r * cols + c,
{
    lemma_mul_inequality(r, rows - 1, cols);
    lemma_mul_is_distributive_sub_other_way(cols, rows, 1);
    lemma_mul_is_commutative(cols, rows);
    lemma_mul_is_commutative(cols, r);
}

impl<const N: u16> Matrix<Fin<N>> {
    /// The row phase of a round with pivot (`mincol`, `minrow`) of value `minx`.
    fn clear_pivot_col(smith: &mut Self, u: &mut Self, mincol: u8, minrow: u8, minx: Fin<N>)
        requires
            N > 0,
            old(smith).ncols() * old(smith).nrows() <= 256,
            old(smith).entries().len() >= old(smith).ncols() * old(smith).nrows(),
            mincol < old(smith).ncols(),
            minrow < old(smith).nrows(),
            old(u).ncols() == old(smith).nrows(),
            row_phase_ok(
                (old(smith).entries(), old(u).entries()),
                old(smith).ncols() as int,
                old(smith).nrows() as int,
                mincol as int,
                minrow as int,
                minx,
                old(smith).nrows() as int,
            ),
        ensures
            final(smith).ncols() == old(smith).ncols(),
            final(smith).nrows() == old(smith).nrows(),
            final(u).ncols() == old(u).ncols(),
            final(u).nrows() == old(u).nrows(),
            final(smith).entries().len() == old(smith).entries().len(),
            (final(smith).entries(), final(u).entries()) == row_phase(
                (old(smith).entries(), old(u).entries()),
                old(smith).ncols() as int,
                old(smith).nrows() as int,
                mincol as int,
                minrow as int,
                minx,
                old(smith).nrows() as int,
            ),
    {
        let ghost su0 = (smith.entries(), u.entries());
        let cols = smith.num_of_cols();
        let rows = smith.num_of_rows();
        let mut row: u8 = 0;
        while row < rows
            invariant
                N > 0,
                cols == smith.ncols(),
                rows == smith.nrows(),
                cols * rows <= 256,
                mincol < cols,
                minrow < rows,
                row <= rows,
                u.ncols() == rows,
                u.nrows() == old(u).nrows(),
                smith.entries().len() == su0.0.len(),
                su0.0.len() >= cols * rows,
                row_phase_ok(su0, cols as int, rows as int, mincol as int, minrow as int, minx, rows as int),
                (smith.entries(), u.entries()) == row_phase(su0, cols as int, rows as int, mincol as int, minrow as int, minx, row as int),
            decreases rows - row,
        {
            proof {
                lemma_row_phase_ok_prefix(su0, cols as int, rows as int, mincol as int, minrow as int, minx, row as int + 1, rows as int);
                lemma_index_bound(mincol as int, row as int, cols as int, rows as int);
                lemma_index_bound(0, minrow as int, cols as int, rows as int);
            }
            let ghost before = (smith.entries(), u.entries());
            if row != minrow {
                match smith.get(mincol, row) {
                    Some(xr) => {
                        let x = *xr;
                        if !x.is_zero() {
                            let g = x.gcd(minx);
                            if !x.rem(minx).is_zero() {
                                smith.mul_row_by(row, minx.divide_by(&g));
                                u.mul_row_by(row, minx);
                            }
                            let q = x.divide_by(&g).neg();
                            smith.add_muled_row_to_row(minrow, row, q);
                            u.add_muled_row_to_row(minrow, row, q);
                        }
                    },
                    None => {},
                }
            }
            assert((smith.entries(), u.entries()) == row_step(before, cols as int, rows as int, mincol as int, minrow as int, minx, row as int));
            row = row + 1;
        }
    }

    /// The column phase of a round with pivot (`mincol`, `minrow`) of value `minx`.
    fn clear_pivot_row(smith: &mut Self, v: &mut Self, mincol: u8, minrow: u8, minx: Fin<N>)
        requires
            N > 0,
            old(smith).ncols() * old(smith).nrows() <= 256,
            old(smith).entries().len() >= old(smith).ncols() * old(smith).nrows(),
            mincol < old(smith).ncols(),
            minrow < old(smith).nrows(),
            old(v).ncols() == old(smith).ncols(),
            old(v).nrows() == old(smith).ncols(),
            col_phase_ok(
                (old(smith).entries(), old(v).entries()),
                old(smith).ncols() as int,
                old(smith).nrows() as int,
                mincol as int,
                minrow as int,
                minx,
                old(smith).ncols() as int,
            ),
        ensures
            final(smith).ncols() == old(smith).ncols(),
            final(smith).nrows() == old(smith).nrows(),
            final(v).ncols() == old(v).ncols(),
            final(v).nrows() == old(v).nrows(),
            final(smith).entries().len() == old(smith).entries().len(),
            (final(smith).entries(), final(v).entries()) == col_phase(
                (old(smith).entries(), old(v).entries()),
                old(smith).ncols() as int,
                old(smith).nrows() as int,
                mincol as int,
                minrow as int,
                minx,
                old(smith).ncols() as int,
            ),
    {
        let ghost sv0 = (smith.entries(), v.entries());
        let cols = smith.num_of_cols();
        let rows = smith.num_of_rows();
        let mut col: u8 = 0;
        while col < cols
            invariant
                N > 0,
                cols == smith.ncols(),
                rows == smith.nrows(),
                cols * rows <= 256,
                mincol < cols,
                minrow < rows,
                col <= cols,
                v.ncols() == cols,
                v.nrows() == cols,
                smith.entries().len() == sv0.0.len(),
                sv0.0.len() >= cols * rows,
                col_phase_ok(sv0, cols as int, rows as int, mincol as int, minrow as int, minx, cols as int),
                (smith.entries(), v.entries()) == col_phase(sv0, cols as int, rows as int, mincol as int, minrow as int, minx, col as int),
            decreases cols - col,
        {
            proof {
                lemma_col_phase_ok_prefix(sv0, cols as int, rows as int, mincol as int, minrow as int, minx, col as int + 1, cols as int);
                lemma_index_bound(col as int, minrow as int, cols as int, rows as int);
            }
            let ghost before = (smith.entries(), v.entries());
            if col != mincol {
                match smith.get(col, minrow) {
                    Some(xr) => {
                        let x = *xr;
                        if !x.is_zero() {
                            let g = x.gcd(minx);
                            if !x.rem(minx).is_zero() {
                                smith.mul_col_by(col, minx.divide_by(&g));
                                v.mul_col_by(col, minx);
                            }
                            let q = x.divide_by(&g).neg();
                            smith.add_muled_col_to_col(mincol, col, q);
                            v.add_muled_col_to_col(mincol, col, q);
                        }
                    },
                    None => {},
                }
            }
            assert((smith.entries(), v.entries()) == col_step(before, cols as int, rows as int, mincol as int, minrow as int, minx, col as int));
            col = col + 1;
        }
    }

    /// Returns `(u, s, v)`: `s` is this matrix after at most min(cols, rows)
    /// rounds; each round takes as pivot the least nonzero entry outside the
    /// columns and rows of earlier pivots, clears the rest of its column by
    /// row operations and the rest of its row by column operations. `u`
    /// records the row operations, `v` the column operations. Rows and
    /// columns are never swapped, and the pivots need not divide each other.
    pub fn pseudo_smith(&self) -> (res: (Self, Self, Self))
        requires
            N > 0,
            self.ncols() * self.nrows() <= 256,
            self.entries().len() >= self.ncols() * self.nrows(),
            (N <= 255 && self.nrows() <= 16) || smith_result_ok(self.entries(), self.ncols() as int, self.nrows() as int),
        ensures
            res.0.ncols() == self.nrows(),
            res.0.nrows() == self.nrows(),
            res.1.ncols() == self.ncols(),
            res.1.nrows() == self.nrows(),
            res.2.ncols() == self.ncols(),
            res.2.nrows() == self.ncols(),
            (res.1.entries(), res.0.entries(), res.2.entries()) == smith_result(
                self.entries(),
                self.ncols() as int,
                self.nrows() as int,
            ),
    {
        let cols = self.num_of_cols();
        let rows = self.num_of_rows();
        let entries = self.buffer();
        entries_are_wf(&entries);
        proof {
            if N <= 255 && rows <= 16 {
                lemma_smith_in_range(self.entries(), cols as int, rows as int);
            }
        }
        let mut smith = Self::from_buffer(entries, cols, rows);
        let mut u = Self::identity(rows, rows);
        let mut v = Self::identity(cols, cols);
        let mut done_cols: BTreeSet<u8> = BTreeSet::new();
        let mut done_rows: BTreeSet<u8> = BTreeSet::new();
        let ghost target = smith_result(self.entries(), cols as int, rows as int);
        let n: u8 = if rows < cols { rows } else { cols };
        let mut i: u8 = 0;
        while i < n
            invariant
                N > 0,
                cols == smith.ncols(),
                rows == smith.nrows(),
                cols * rows <= 256,
                n == smith_rounds(cols as int, rows as int),
                i <= n,
                u.ncols() == rows,
                u.nrows() == rows,
                v.ncols() == cols,
                v.nrows() == cols,
                smith.entries().len() == self.entries().len(),
                self.entries().len() >= cols * rows,
                smith_run((smith.entries(), u.entries(), v.entries()), done_cols@, done_rows@, cols as int, rows as int, (n - i) as nat) == target,
                smith_run_ok((smith.entries(), u.entries(), v.entries()), done_cols@, done_rows@, cols as int, rows as int, (n - i) as nat),
            ensures
                (smith.entries(), u.entries(), v.entries()) == target,
                cols == smith.ncols(),
                rows == smith.nrows(),
                u.ncols() == rows,
                u.nrows() == rows,
                v.ncols() == cols,
                v.nrows() == cols,
            decreases n - i,
        {
            proof {
                assert forall|c: int, r: int|
                    0 <= c < smith.ncols() && 0 <= r < smith.nrows() && !done_cols@.contains(c as u8) && !done_rows@.contains(r as u8)
                        implies #[trigger] (c + smith.ncols() * r) < smith.entries().len() && c + smith.ncols() * r <= u8::MAX by {
                    lemma_index_bound(c, r, cols as int, rows as int);
                }
            }
            match smith.smallest_nonzero_entry(&done_cols, &done_rows) {
                None => {
                    break;
                },
                Some((mincol, minrow)) => {
                    proof {
                        lemma_index_bound(mincol as int, minrow as int, cols as int, rows as int);
                    }
                    let ghost st = (smith.entries(), u.entries(), v.entries());
                    match smith.get(mincol, minrow) {
                        Some(mr) => {
                            let minx = *mr;
                            Self::clear_pivot_col(&mut smith, &mut u, mincol, minrow, minx);
                            Self::clear_pivot_row(&mut smith, &mut v, mincol, minrow, minx);
                        },
                        None => {},
                    }
                    assert((smith.entries(), u.entries(), v.entries()) == smith_round(st, cols as int, rows as int, mincol as int, minrow as int));
                    done_cols.insert(mincol);
                    done_rows.insert(minrow);
                },
            }
            i = i + 1;
        }
        (u, smith, v)
    }
}

/* # the shape of the result */

/// In a buffer of `rows` rows of `cols` entries, every row and every column
/// holds at most one nonzero entry.
pub open spec fn at_most_one_per_line<const N: u16>(s: Seq<Fin<N>>, cols: int, rows: int) -> bool {
    &&& forall|c1: int, c2: int, r: int|
        0 <= c1 < cols && 0 <= c2 < cols && 0 <= r < rows && #[trigger] s[r * cols + c1].raw() != N
            && #[trigger] s[r * cols + c2].raw() != N ==> c1 == c2
    &&& forall|c: int, r1: int, r2: int|
        0 <= c < cols && 0 <= r1 < rows && 0 <= r2 < rows && #[trigger] s[r1 * cols + c].raw() != N
            && #[trigger] s[r2 * cols + c].raw() != N ==> r1 == r2
}

/// The entries of the grid are well formed.
pub open spec fn grid_wf<const N: u16>(s: Seq<Fin<N>>, cols: int, rows: int) -> bool {
    forall|c: int, r: int| 0 <= c < cols && 0 <= r < rows ==> (#[trigger] s[r * cols + c]).wf()
}

/// The pivots of the rounds so far, as a map from pivot column to pivot row:
/// its columns are the done columns, its rows done rows, no two pivots share
/// a row, and a nonzero entry in a done column or a done row is a pivot.
pub open spec fn pivots_ok<const N: u16>(s: Seq<Fin<N>>, cols: int, rows: int, dc: Set<u8>, dr: Set<u8>, p: Map<int, int>) -> bool {
    &&& forall|c: int| 0 <= c < cols ==> (dc.contains(c as u8) <==> #[trigger] p.dom().contains(c))
    &&& forall|c: int|
        #[trigger] p.dom().contains(c) ==> 0 <= c < cols && 0 <= p[c] < rows && dr.contains(p[c] as u8)
    &&& forall|c1: int, c2: int|
        #[trigger] p.dom().contains(c1) && #[trigger] p.dom().contains(c2) && p[c1] == p[c2] ==> c1 == c2
    &&& forall|c: int, r: int|
        0 <= c < cols && 0 <= r < rows && #[trigger] s[r * cols + c].raw() != N && (dc.contains(c as u8)
            || dr.contains(r as u8)) ==> p.dom().contains(c) && p[c] == r
}

/// Position (`c`, `r`) of a buffer with `cols` columns lies in the grid.
proof fn lemma_pos(c: int, r: int, cols: int, rows: int)
    requires
        0 <= c < cols,
        0 <= r < rows,
    ensures
        0 <= r * cols + c < cols * rows,
        r * cols <= r * cols + c,
{
    lemma_mul_inequality(r, rows - 1, cols);
    lemma_mul_is_distributive_sub_other_way(cols, rows, 1);
    lemma_mul_is_commutative(cols, rows);
    lemma_mul_nonnegative(r, cols);
}

/// Position (`c`, `r`) lies in row `row` exactly when `r == row`.
proof fn lemma_in_row_iff(c: int, r: int, cols: int, row: int)
    requires
        0 <= c < cols,
        0 <= r,
        0 <= row,
    ensures
        in_row(r * cols + c, cols, row) <==> r == row,
{
    if r < row {
        lemma_mul_inequality(r + 1, row, cols);
        lemma_mul_is_distributive_add_other_way(cols, r, 1);
    } else if r > row {
        lemma_mul_inequality(row + 1, r, cols);
        lemma_mul_is_distributive_add_other_way(cols, row, 1);
    }
}

/// Position (`c`, `r`) lies in column `col` (within `rows` rows) exactly when
/// `c == col`.
proof fn lemma_in_col_iff(c: int, r: int, cols: int, rows: int, col: int)
    requires
        0 <= c < cols,
        0 <= r < rows,
        0 <= col < cols,
    ensures
        in_col(r * cols + c, cols, rows, col) <==> c == col,
{
    let i = r * cols + c;
    lemma_mul_nonnegative(r, cols);
    if c >= col {
        lemma_fundamental_div_mod_converse(i - col, cols, r, c - col);
    } else if r >= 1 {
        lemma_mul_is_distributive_sub_other_way(cols, r, 1);
        lemma_fundamental_div_mod_converse(i - col, cols, r - 1, cols + c - col);
    }
}

/// The entry at (`c`, `r`) after the row step for row `row`.
proof fn lemma_row_step_entry<const N: u16>(su: Pair<N>, cols: int, rows: int, mc: int, mr: int, m: Fin<N>, row: int, c: int, r: int)
    requires
        0 <= c < cols,
        0 <= r < rows,
        0 <= row < rows,
        0 <= mr < rows,
        0 <= mc < cols,
        cols * rows <= su.0.len(),
    ensures
        row_step(su, cols, rows, mc, mr, m, row).0.len() == su.0.len(),
        ({
            let s = su.0;
            let x = s[row * cols + mc];
            let g = Fin::spec_gcd_of(x, m);
            let q = Fin::spec_neg(Fin::spec_divide_by(x, g));
            let a = if Fin::spec_rem(x, m).raw() != N {
                Fin::spec_mul(s[r * cols + c], Fin::spec_divide_by(m, g))
            } else {
                s[r * cols + c]
            };
            row_step(su, cols, rows, mc, mr, m, row).0[r * cols + c] == if r != row || row == mr || x.raw() == N {
                s[r * cols + c]
            } else {
                Fin::spec_add(a, Fin::spec_mul(s[mr * cols + c], q))
            }
        }),
{
    lemma_pos(c, r, cols, rows);
    lemma_pos(c, mr, cols, rows);
    lemma_in_row_iff(c, r, cols, row);
    lemma_in_row_iff(c, mr, cols, row);
}

/// The entry at (`c`, `r`) after the column step for column `col`.
proof fn lemma_col_step_entry<const N: u16>(sv: Pair<N>, cols: int, rows: int, mc: int, mr: int, m: Fin<N>, col: int, c: int, r: int)
    requires
        0 <= c < cols,
        0 <= r < rows,
        0 <= col < cols,
        0 <= mr < rows,
        0 <= mc < cols,
        cols * rows <= sv.0.len(),
    ensures
        col_step(sv, cols, rows, mc, mr, m, col).0.len() == sv.0.len(),
        ({
            let s = sv.0;
            let x = s[mr * cols + col];
            let g = Fin::spec_gcd_of(x, m);
            let q = Fin::spec_neg(Fin::spec_divide_by(x, g));
            let a = if Fin::spec_rem(x, m).raw() != N {
                Fin::spec_mul(s[r * cols + c], Fin::spec_divide_by(m, g))
            } else {
                s[r * cols + c]
            };
            col_step(sv, cols, rows, mc, mr, m, col).0[r * cols + c] == if c != col || col == mc || x.raw() == N {
                s[r * cols + c]
            } else {
                Fin::spec_add(a, Fin::spec_mul(s[r * cols + mc], q))
            }
        }),
{
    lemma_pos(c, r, cols, rows);
    lemma_pos(mc, r, cols, rows);
    lemma_in_col_iff(c, r, cols, rows, col);
    lemma_in_col_iff(mc, r, cols, rows, col);
}

/// Through the row phase of a round with a candidate pivot (`mc`, `mr`):
/// the grid stays well formed, the pivots stay as they are, the pivot row
/// is unchanged and the pivot column is cleared in the rows done so far.
proof fn lemma_row_phase_shape<const N: u16>(su: Pair<N>, cols: int, rows: int, mc: int, mr: int, dc: Set<u8>, dr: Set<u8>, p: Map<int, int>, k: int)
    requires
        N > 0,
        0 <= k <= rows,
        cols <= 255,
        rows <= 255,
        cols * rows <= su.0.len(),
        grid_wf(su.0, cols, rows),
        pivots_ok(su.0, cols, rows, dc, dr, p),
        is_candidate(su.0, cols, rows, dc, dr, mc, mr),
    ensures
        ({
            let sk = row_phase(su, cols, rows, mc, mr, su.0[mr * cols + mc], k).0;
            &&& sk.len() == su.0.len()
            &&& grid_wf(sk, cols, rows)
            &&& pivots_ok(sk, cols, rows, dc, dr, p)
            &&& forall|c: int| 0 <= c < cols ==> #[trigger] sk[mr * cols + c] == su.0[mr * cols + c]
            &&& forall|r: int| 0 <= r < k && r != mr ==> (#[trigger] sk[r * cols + mc]).raw() == N
        }),
    decreases k,
{
    if k > 0 {
        lemma_row_phase_shape(su, cols, rows, mc, mr, dc, dr, p, k - 1);
        let m = su.0[mr * cols + mc];
        let prev = row_phase(su, cols, rows, mc, mr, m, k - 1);
        let s = prev.0;
        let row = k - 1;
        let next = row_step(prev, cols, rows, mc, mr, m, row).0;
        let x = s[row * cols + mc];
        let g = Fin::spec_gcd_of(x, m);
        let q = Fin::spec_neg(Fin::spec_divide_by(x, g));
        let d = Fin::spec_divide_by(m, g);
        let scale = Fin::spec_rem(x, m).raw() != N;
        assert(s[mr * cols + mc] == m);
        lemma_row_step_entry(prev, cols, rows, mc, mr, m, row, 0, 0);
        // row `row` is not done: its pivot column entry would be a pivot
        if row != mr && x.raw() != N {
            if dr.contains(row as u8) {
                assert(p.dom().contains(mc));
            }
            assert(!dr.contains(row as u8));
        }
        assert forall|c: int, r: int| 0 <= c < cols && 0 <= r < rows implies #[trigger] next[r * cols + c] == (
            if r != row || row == mr || x.raw() == N {
                s[r * cols + c]
            } else {
                Fin::spec_add(
                    if scale { Fin::spec_mul(s[r * cols + c], d) } else { s[r * cols + c] },
                    Fin::spec_mul(s[mr * cols + c], q),
                )
            }) by {
            lemma_row_step_entry(prev, cols, rows, mc, mr, m, row, c, r);
        }
        assert forall|c: int, r: int| 0 <= c < cols && 0 <= r < rows implies (#[trigger] next[r * cols + c]).wf() by {
            if r == row && row != mr && x.raw() != N {
                let a = if scale { Fin::spec_mul(s[r * cols + c], d) } else { s[r * cols + c] };
                lemma_ops_wf(a, Fin::spec_mul(s[mr * cols + c], q));
            }
        }
        // the entries of row `row` in done columns stay zero
        assert forall|c: int, r: int|
            0 <= c < cols && 0 <= r < rows && #[trigger] next[r * cols + c].raw() != N && (dc.contains(c as u8)
                || dr.contains(r as u8)) implies p.dom().contains(c) && p[c] == r by {
            if r == row && row != mr && x.raw() != N {
                let a = if scale { Fin::spec_mul(s[r * cols + c], d) } else { s[r * cols + c] };
                assert(dc.contains(c as u8));
                if s[r * cols + c].raw() != N {
                    assert(p[c] == r);
                }
                if scale {
                    lemma_mul_zero_left(s[r * cols + c], d);
                }
                if s[mr * cols + c].raw() != N {
                    assert(p[c] == mr);
                }
                lemma_mul_zero_left(s[mr * cols + c], q);
                lemma_add_zeros(a, Fin::spec_mul(s[mr * cols + c], q));
            }
        }
        assert forall|r: int| 0 <= r < k && r != mr implies (#[trigger] next[r * cols + mc]).raw() == N by {
            if r == row && x.raw() != N {
                lemma_clear_entry(x, m);
            }
        }
    }
}

/// Through the column phase of a round whose pivot (`mc`, `mr`) is the only
/// nonzero entry of its column: the grid stays well formed, the pivots stay
/// as they are, the pivot column is unchanged and the pivot row is cleared
/// in the columns done so far.
proof fn lemma_col_phase_shape<const N: u16>(sv: Pair<N>, cols: int, rows: int, mc: int, mr: int, dc: Set<u8>, dr: Set<u8>, p: Map<int, int>, k: int)
    requires
        N > 0,
        0 <= k <= cols,
        cols <= 255,
        rows <= 255,
        cols * rows <= sv.0.len(),
        grid_wf(sv.0, cols, rows),
        pivots_ok(sv.0, cols, rows, dc, dr, p),
        is_candidate(sv.0, cols, rows, dc, dr, mc, mr),
        forall|r: int| 0 <= r < rows && r != mr ==> (#[trigger] sv.0[r * cols + mc]).raw() == N,
    ensures
        ({
            let sk = col_phase(sv, cols, rows, mc, mr, sv.0[mr * cols + mc], k).0;
            &&& sk.len() == sv.0.len()
            &&& grid_wf(sk, cols, rows)
            &&& pivots_ok(sk, cols, rows, dc, dr, p)
            &&& forall|r: int| 0 <= r < rows ==> #[trigger] sk[r * cols + mc] == sv.0[r * cols + mc]
            &&& forall|c: int| 0 <= c < k && c != mc ==> (#[trigger] sk[mr * cols + c]).raw() == N
        }),
    decreases k,
{
    if k > 0 {
        lemma_col_phase_shape(sv, cols, rows, mc, mr, dc, dr, p, k - 1);
        let m = sv.0[mr * cols + mc];
        let prev = col_phase(sv, cols, rows, mc, mr, m, k - 1);
        let s = prev.0;
        let col = k - 1;
        let next = col_step(prev, cols, rows, mc, mr, m, col).0;
        let x = s[mr * cols + col];
        let g = Fin::spec_gcd_of(x, m);
        let q = Fin::spec_neg(Fin::spec_divide_by(x, g));
        let d = Fin::spec_divide_by(m, g);
        let scale = Fin::spec_rem(x, m).raw() != N;
        assert(s[mr * cols + mc] == m);
        lemma_col_step_entry(prev, cols, rows, mc, mr, m, col, 0, 0);
        // column `col` is not done: its pivot row entry would be a pivot
        if col != mc && x.raw() != N {
            if dc.contains(col as u8) {
                assert(p[col] == mr);
            }
            assert(!dc.contains(col as u8));
        }
        assert forall|c: int, r: int| 0 <= c < cols && 0 <= r < rows implies #[trigger] next[r * cols + c] == (
            if c != col || col == mc || x.raw() == N {
                s[r * cols + c]
            } else {
                Fin::spec_add(
                    if scale { Fin::spec_mul(s[r * cols + c], d) } else { s[r * cols + c] },
                    Fin::spec_mul(s[r * cols + mc], q),
                )
            }) by {
            lemma_col_step_entry(prev, cols, rows, mc, mr, m, col, c, r);
        }
        assert forall|c: int, r: int| 0 <= c < cols && 0 <= r < rows implies (#[trigger] next[r * cols + c]).wf() by {
            if c == col && col != mc && x.raw() != N {
                let a = if scale { Fin::spec_mul(s[r * cols + c], d) } else { s[r * cols + c] };
                lemma_ops_wf(a, Fin::spec_mul(s[r * cols + mc], q));
            }
        }
        // the entries of column `col` in done rows stay zero
        assert forall|c: int, r: int|
            0 <= c < cols && 0 <= r < rows && #[trigger] next[r * cols + c].raw() != N && (dc.contains(c as u8)
                || dr.contains(r as u8)) implies p.dom().contains(c) && p[c] == r by {
            if c == col && col != mc && x.raw() != N {
                let a = if scale { Fin::spec_mul(s[r * cols + c], d) } else { s[r * cols + c] };
                assert(dr.contains(r as u8));
                if r == mr {
                    assert(is_candidate(sv.0, cols, rows, dc, dr, mc, mr));
                }
                assert(r != mr);
                if s[r * cols + c].raw() != N {
                    assert(p[c] == r);
                }
                if scale {
                    lemma_mul_zero_left(s[r * cols + c], d);
                }
                lemma_mul_zero_left(s[r * cols + mc], q);
                lemma_add_zeros(a, Fin::spec_mul(s[r * cols + mc], q));
            }
        }
        assert forall|c: int| 0 <= c < k && c != mc implies (#[trigger] next[mr * cols + c]).raw() == N by {
            if c == col && x.raw() != N {
                lemma_clear_entry(x, m);
            }
        }
    }
}

/// After a round with a candidate pivot, that pivot joins the others.
proof fn lemma_round_shape<const N: u16>(st: Triple<N>, cols: int, rows: int, mc: int, mr: int, dc: Set<u8>, dr: Set<u8>, p: Map<int, int>)
    requires
        N > 0,
        cols <= 255,
        rows <= 255,
        cols * rows <= st.0.len(),
        grid_wf(st.0, cols, rows),
        pivots_ok(st.0, cols, rows, dc, dr, p),
        is_candidate(st.0, cols, rows, dc, dr, mc, mr),
    ensures
        ({
            let s2 = smith_round(st, cols, rows, mc, mr).0;
            &&& s2.len() == st.0.len()
            &&& grid_wf(s2, cols, rows)
            &&& pivots_ok(s2, cols, rows, dc.insert(mc as u8), dr.insert(mr as u8), p.insert(mc, mr))
        }),
{
    let (s, u, v) = st;
    let m = s[mr * cols + mc];
    lemma_row_phase_shape((s, u), cols, rows, mc, mr, dc, dr, p, rows);
    let s1 = row_phase((s, u), cols, rows, mc, mr, m, rows).0;
    assert(s1[mr * cols + mc] == m);
    assert(is_candidate(s1, cols, rows, dc, dr, mc, mr));
    lemma_col_phase_shape((s1, v), cols, rows, mc, mr, dc, dr, p, cols);
    let s2 = col_phase((s1, v), cols, rows, mc, mr, m, cols).0;
    assert(s2 == smith_round(st, cols, rows, mc, mr).0);
    let dc2 = dc.insert(mc as u8);
    let dr2 = dr.insert(mr as u8);
    let p2 = p.insert(mc, mr);
    assert forall|c: int| 0 <= c < cols implies (dc2.contains(c as u8) <==> #[trigger] p2.dom().contains(c)) by {
        assert(dc.contains(c as u8) <==> p.dom().contains(c));
    }
    assert forall|c1: int, c2: int|
        #[trigger] p2.dom().contains(c1) && #[trigger] p2.dom().contains(c2) && p2[c1] == p2[c2] implies c1 == c2 by {
        if c1 != mc && c2 != mc {
            assert(p.dom().contains(c1) && p.dom().contains(c2));
        } else if c1 == mc && c2 != mc {
            assert(p.dom().contains(c2) && dr.contains(p[c2] as u8));
        } else if c2 == mc && c1 != mc {
            assert(p.dom().contains(c1) && dr.contains(p[c1] as u8));
        }
    }
    assert forall|c: int, r: int|
        0 <= c < cols && 0 <= r < rows && #[trigger] s2[r * cols + c].raw() != N && (dc2.contains(c as u8)
            || dr2.contains(r as u8)) implies p2.dom().contains(c) && p2[c] == r by {
        if dc.contains(c as u8) || dr.contains(r as u8) {
            assert(p.dom().contains(c) && p[c] == r);
            assert(c != mc);
        } else if c == mc {
            assert(s2[r * cols + mc] == s1[r * cols + mc]);
        } else {
            assert(r == mr);
        }
    }
}

/// The set of the `u8` values below `n` has `n` elements.
proof fn lemma_u8_range(n: int)
    requires
        0 <= n <= 256,
    ensures
        Set::new(|x: u8| (x as int) < n).finite(),
        Set::new(|x: u8| (x as int) < n).len() == n,
    decreases n,
{
    if n == 0 {
        assert(Set::new(|x: u8| (x as int) < n) =~= Set::<u8>::empty());
    } else {
        lemma_u8_range(n - 1);
        assert(Set::new(|x: u8| (x as int) < n) =~= Set::new(|x: u8| (x as int) < n - 1).insert((n - 1) as u8));
    }
}

/// A finite set of `n` values below `n` holds every value below `n`.
proof fn lemma_u8_full(st: Set<u8>, n: int)
    requires
        0 <= n <= 256,
        st.finite(),
        st.len() == n,
        forall|x: u8| st.contains(x) ==> (x as int) < n,
    ensures
        forall|x: u8| (x as int) < n ==> st.contains(x),
{
    assert forall|x: u8| (x as int) < n implies st.contains(x) by {
        if !st.contains(x) {
            lemma_u8_range(n);
            let rest = Set::new(|y: u8| (y as int) < n).remove(x);
            assert(st.subset_of(rest));
            vstd::set_lib::lemma_len_subset(st, rest);
        }
    }
}

/// With the pivots in place and no candidate left, every row and every
/// column holds at most one nonzero entry.
proof fn lemma_sparse<const N: u16>(s: Seq<Fin<N>>, cols: int, rows: int, dc: Set<u8>, dr: Set<u8>, p: Map<int, int>)
    requires
        pivots_ok(s, cols, rows, dc, dr, p),
        forall|c: int, r: int| !is_candidate(s, cols, rows, dc, dr, c, r),
    ensures
        at_most_one_per_line(s, cols, rows),
{
    assert forall|c1: int, c2: int, r: int|
        0 <= c1 < cols && 0 <= c2 < cols && 0 <= r < rows && #[trigger] s[r * cols + c1].raw() != N
            && #[trigger] s[r * cols + c2].raw() != N implies c1 == c2 by {
        assert(!is_candidate(s, cols, rows, dc, dr, c1, r));
        assert(!is_candidate(s, cols, rows, dc, dr, c2, r));
        assert(p.dom().contains(c1) && p.dom().contains(c2));
    }
    assert forall|c: int, r1: int, r2: int|
        0 <= c < cols && 0 <= r1 < rows && 0 <= r2 < rows && #[trigger] s[r1 * cols + c].raw() != N
            && #[trigger] s[r2 * cols + c].raw() != N implies r1 == r2 by {
        assert(!is_candidate(s, cols, rows, dc, dr, c, r1));
        assert(!is_candidate(s, cols, rows, dc, dr, c, r2));
    }
}

/// Every run of the remaining rounds ends with at most one nonzero entry in
/// every row and every column.
proof fn lemma_run_shape<const N: u16>(st: Triple<N>, dc: Set<u8>, dr: Set<u8>, p: Map<int, int>, cols: int, rows: int, k: nat)
    requires
        N > 0,
        0 <= cols <= 255,
        0 <= rows <= 255,
        cols * rows <= st.0.len(),
        grid_wf(st.0, cols, rows),
        pivots_ok(st.0, cols, rows, dc, dr, p),
        dc.finite(),
        dr.finite(),
        dc.len() + k == smith_rounds(cols, rows),
        dr.len() == dc.len(),
        forall|x: u8| dc.contains(x) ==> (x as int) < cols,
        forall|x: u8| dr.contains(x) ==> (x as int) < rows,
    ensures
        at_most_one_per_line(smith_run(st, dc, dr, cols, rows, k).0, cols, rows),
    decreases k,
{
    lemma_smallest_candidate(st.0, cols, rows, dc, dr);
    if k == 0 {
        if rows < cols {
            lemma_u8_full(dr, rows);
            assert forall|c: int, r: int| !is_candidate(st.0, cols, rows, dc, dr, c, r) by {
                if 0 <= r < rows {
                    assert(dr.contains(r as u8));
                }
            }
        } else {
            lemma_u8_full(dc, cols);
            assert forall|c: int, r: int| !is_candidate(st.0, cols, rows, dc, dr, c, r) by {
                if 0 <= c < cols {
                    assert(dc.contains(c as u8));
                }
            }
        }
        lemma_sparse(st.0, cols, rows, dc, dr, p);
    } else {
        match smallest_candidate(st.0, cols, rows, dc, dr) {
            None => {
                lemma_sparse(st.0, cols, rows, dc, dr, p);
            },
            Some((mc, mr)) => {
                lemma_round_shape(st, cols, rows, mc as int, mr as int, dc, dr, p);
                let next = smith_round(st, cols, rows, mc as int, mr as int);
                lemma_run_shape(next, dc.insert(mc), dr.insert(mr), p.insert(mc as int, mr as int), cols, rows, (k - 1) as nat);
            },
        }
    }
}

/// In the matrix that `pseudo_smith` returns, every row and every column
/// holds at most one nonzero entry.
pub proof fn law_pseudo_smith_sparse<const N: u16>(e: Seq<Fin<N>>, cols: int, rows: int)
    requires
        N > 0,
        0 <= cols <= 255,
        0 <= rows <= 255,
        cols * rows <= e.len(),
        forall|i: int| 0 <= i < e.len() ==> (#[trigger] e[i]).wf(),
    ensures
        at_most_one_per_line(smith_result(e, cols, rows).0, cols, rows),
{
    assert forall|c: int, r: int| 0 <= c < cols && 0 <= r < rows implies (#[trigger] e[r * cols + c]).wf() by {
        lemma_pos(c, r, cols, rows);
    }
    let p = Map::<int, int>::empty();
    assert(pivots_ok(e, cols, rows, Set::empty(), Set::empty(), p));
    lemma_run_shape(
        (e, identity_entries::<N>(rows, rows), identity_entries::<N>(cols, cols)),
        Set::empty(),
        Set::empty(),
        p,
        cols,
        rows,
        smith_rounds(cols, rows),
    );
}

/* # sparse matrices are already reduced */

proof fn lemma_row_phase_sparse<const N: u16>(su: Pair<N>, cols: int, rows: int, mc: int, mr: int, m: Fin<N>, n: int)
    requires
        at_most_one_per_line(su.0, cols, rows),
        0 <= mc < cols,
        0 <= mr < rows,
        su.0[mr * cols + mc].raw() != N,
        n <= rows,
    ensures
        row_phase(su, cols, rows, mc, mr, m, n) == su,
    decreases n,
{
    if n > 0 {
        lemma_row_phase_sparse(su, cols, rows, mc, mr, m, n - 1);
        let row = n - 1;
        if row != mr && su.0[row * cols + mc].raw() != N {
            assert(row == mr);
        }
    }
}

proof fn lemma_col_phase_sparse<const N: u16>(sv: Pair<N>, cols: int, rows: int, mc: int, mr: int, m: Fin<N>, n: int)
    requires
        at_most_one_per_line(sv.0, cols, rows),
        0 <= mc < cols,
        0 <= mr < rows,
        sv.0[mr * cols + mc].raw() != N,
        n <= cols,
    ensures
        col_phase(sv, cols, rows, mc, mr, m, n) == sv,
    decreases n,
{
    if n > 0 {
        lemma_col_phase_sparse(sv, cols, rows, mc, mr, m, n - 1);
        let col = n - 1;
        if col != mc && sv.0[mr * cols + col].raw() != N {
            assert(col == mc);
        }
    }
}

proof fn lemma_run_sparse<const N: u16>(st: Triple<N>, dc: Set<u8>, dr: Set<u8>, cols: int, rows: int, k: nat)
    requires
        0 <= cols <= 255,
        0 <= rows <= 255,
        at_most_one_per_line(st.0, cols, rows),
    ensures
        smith_run(st, dc, dr, cols, rows, k) == st,
    decreases k,
{
    if k > 0 {
        lemma_smallest_candidate(st.0, cols, rows, dc, dr);
        if let Some((mc, mr)) = smallest_candidate(st.0, cols, rows, dc, dr) {
            let (mc, mr) = (mc as int, mr as int);
            let (s, u, v) = st;
            let m = s[mr * cols + mc];
            lemma_row_phase_sparse((s, u), cols, rows, mc, mr, m, rows);
            lemma_col_phase_sparse((s, v), cols, rows, mc, mr, m, cols);
            assert(smith_round(st, cols, rows, mc, mr) == st);
            lemma_run_sparse(st, dc.insert(mc as u8), dr.insert(mr as u8), cols, rows, (k - 1) as nat);
        }
    }
}

/// A matrix with at most one nonzero entry in every row and every column is
/// already in pseudo Smith form: `pseudo_smith` returns it unchanged, with
/// identities as the records of row and column operations.
pub proof fn law_pseudo_smith_fixes_sparse<const N: u16>(e: Seq<Fin<N>>, cols: int, rows: int)
    requires
        0 <= cols <= 255,
        0 <= rows <= 255,
        at_most_one_per_line(e, cols, rows),
    ensures
        smith_result(e, cols, rows) == (e, identity_entries::<N>(rows, rows), identity_entries::<N>(cols, cols)),
{
    lemma_run_sparse(
        (e, identity_entries::<N>(rows, rows), identity_entries::<N>(cols, cols)),
        Set::empty(),
        Set::empty(),
        cols,
        rows,
        smith_rounds(cols, rows),
    );
}

} // verus!
