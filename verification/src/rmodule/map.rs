//! Homomorphisms between modules in canonical form, given by a matrix.
use vstd::prelude::*;
use std::sync::Arc;
use crate::rmodule::canon::CanonModule;
use crate::rmodule::ring::Fin;
use crate::rmodule::torsion::Factorisable;
use crate::util::order::Ranked;
use crate::util::ident::share_arc;
use crate::util::matrix::{Matrix, Semiring, compose_ok, composed, zip_len, transpose_ok, dot, dot_ok};
use crate::util::seq::{clamp, clipped, strided, lemma_strided_props};
use crate::util::smith::{smith_result, smith_result_ok};
use crate::util::sort::{stable_sorted, sort_by_coeff, map_first, lemma_sorted_map, lemma_stable_sorted_len};
use crate::util::seq::copy_range;
use crate::util::matrix::transposed;
use crate::rmodule::torsion::{CoeffTree, built_from, all_prime_powers};

verus! {

/// A homomorphism from `source` to `target`: column `c` of the matrix is
/// the image of the `c`-th generator, and its entry in row `r` is read
/// modulo the `r`-th torsion coefficient of the target.
#[derive(Debug, PartialEq, Eq)]
pub struct CanonToCanon<R: Ranked> {
    source: Arc<CanonModule<R>>,
    target: Arc<CanonModule<R>>,
    map: Matrix<R>,
}

/// The buffer `e` of a matrix with `cols` columns, each entry in row `r`
/// replaced by its remainder modulo `coeffs[r]` while there is one.
pub open spec fn reduced_rows<const N: u16>(e: Seq<Fin<N>>, cols: int, coeffs: Seq<Fin<N>>) -> Seq<Fin<N>> {
    Seq::new(
        e.len(),
        |i: int|
            if cols > 0 && i / cols < coeffs.len() {
                Fin::spec_rem(e[i], coeffs[i / cols])
            } else {
                e[i]
            },
    )
}

/// What `new` needs of a matrix with `cols` columns: every row that a
/// coefficient of the target reduces starts at an offset that fits in `u8`.
pub open spec fn new_ok<const N: u16>(target: CanonModule<Fin<N>>, cols: nat) -> bool {
    &&& target.coeff_values().len() <= 256
    &&& target.coeff_values().len() == 0 || (target.coeff_values().len() - 1) * cols <= u8::MAX
}

impl<R: Ranked> CanonToCanon<R> {
    /// The module the homomorphism starts from.
    pub closed spec fn domain(&self) -> CanonModule<R> {
        *self.source
    }

    /// The module the homomorphism goes to.
    pub closed spec fn codomain(&self) -> CanonModule<R> {
        *self.target
    }

    /// The matrix of the homomorphism.
    pub closed spec fn matrix(&self) -> Matrix<R> {
        self.map
    }

    /// The source module, shared.
    pub fn source(&self) -> (m: Arc<CanonModule<R>>)
        ensures
            *m == self.domain(),
    {
        share_arc(&self.source)
    }

    /// The target module, shared.
    pub fn target(&self) -> (m: Arc<CanonModule<R>>)
        ensures
            *m == self.codomain(),
    {
        share_arc(&self.target)
    }
}

impl<const N: u16> CanonToCanon<Fin<N>> {
    /// The homomorphism with the given matrix, each entry of row `r` reduced
    /// modulo the `r`-th torsion coefficient of the target.
    pub fn new(source: Arc<CanonModule<Fin<N>>>, target: Arc<CanonModule<Fin<N>>>, map: Matrix<Fin<N>>) -> (m: Self)
        requires
            new_ok(*target, map.ncols()),
        ensures
            m.domain() == *source,
            m.codomain() == *target,
            m.matrix().ncols() == map.ncols(),
            m.matrix().nrows() == map.nrows(),
            m.matrix().entries() == reduced_rows(map.entries(), map.ncols() as int, target.coeff_values()),
    {
        let ghost given = map;
        let mut map = map;
        let ghost e = map.entries();
        let ghost cols = map.ncols() as int;
        let coeffs = target.torsion_coeffs();
        let mut row: usize = 0;
        while row < coeffs.len()
            invariant
                coeffs@ == target.coeff_values(),
                new_ok(*target, map.ncols()),
                row <= coeffs@.len(),
                map.ncols() == cols,
                map.ncols() == given.ncols(),
                map.nrows() == given.nrows(),
                e == given.entries(),
                map.entries() == reduced_rows(e, cols, coeffs@.take(row as int)),
            decreases coeffs@.len() - row,
        {
            let coeff = coeffs[row];
            let ghost before = map.entries();
            proof {
                vstd::arithmetic::mul::lemma_mul_inequality(row as int, coeffs@.len() - 1, cols);
            }
            let slice = map.row_mut(row as u8);
            let ghost s0 = slice@;
            let mut j: usize = 0;
            while j < slice.len()
                invariant
                    j <= slice@.len(),
                    slice@.len() == s0.len(),
                    forall|k: int| 0 <= k < s0.len() ==> #[trigger] slice@[k] == (if k < j { Fin::spec_rem(s0[k], coeff) } else { s0[k] }),
                decreases slice@.len() - j,
            {
                let x = slice[j].rem(coeff);
                slice[j] = x;
                j = j + 1;
            }
            proof {
                lemma_row_reduced(e, before, slice@, cols, coeffs@, row as int);
            }
            row = row + 1;
        }
        proof {
            assert(coeffs@.take(coeffs@.len() as int) =~= coeffs@);
        }
        Self { source, target, map }
    }

    /// The kernel. The matrix is reduced by `pseudo_smith` to `s`, with the
    /// column operations recorded in `v`. Each generator of the source, as
    /// far as the matrix has columns, is kept whole where its column of `s`
    /// vanishes modulo its coefficient `coeff`; where the first entry `c`
    /// that does not lies in the row of the target coefficient `t`, the
    /// multiple by `x = coeff / (t / c)` is kept with coefficient `x`,
    /// unless `x` is one or not defined. The kept generators, sorted stably
    /// by coefficient with the largest first, make the source of the
    /// result; its columns are the kept columns of `v` (scaled by `x`), and
    /// its target is the source of `self`.
    pub fn kernel(&self) -> (k: Self)
        requires
            kernel_ok(*self),
        ensures
            k.codomain() == self.domain(),
            built_from(k.domain().tree(), kernel_sorted(*self).map_values(|p: (Seq<Fin<N>>, Fin<N>)| p.1)),
            k.matrix().ncols() == kernel_sorted(*self).len(),
            k.matrix().nrows() == kernel_rows(*self),
            k.matrix().entries() == reduced_rows(
                transposed(kernel_buffer(*self), kernel_rows(*self), kernel_sorted(*self).len() as int),
                kernel_sorted(*self).len() as int,
                self.domain().coeff_values(),
            ),
    {
        let ghost cols = self.map.ncols() as int;
        let ghost rows = self.map.nrows() as int;
        let ghost smith = smith_result(self.map.entries(), cols, rows);
        let (_u, s, v) = self.map.pseudo_smith();
        let cs = self.source.torsion_coeffs();
        let tcs = self.target.torsion_coeffs();
        let scols = s.cols();
        let vcols = v.cols();
        let ncols = self.map.num_of_cols() as usize;
        let n = if cs.len() < ncols { cs.len() } else { ncols };
        let ghost scols_view = columns_of(smith.0, cols, rows);
        let ghost vcols_view = columns_of(smith.2, cols, cols);
        proof {
            assert(scols@.map_values(|c: Vec<Fin<N>>| c@) =~= scols_view);
            assert(vcols@.map_values(|c: Vec<Fin<N>>| c@) =~= vcols_view);
        }
        let mut items: Vec<(Vec<Fin<N>>, Fin<N>)> = Vec::new();
        let mut k: usize = 0;
        while k < n
            invariant
                kernel_ok(*self),
                smith == smith_result(self.matrix().entries(), cols, rows),
                cols == self.matrix().ncols(),
                rows == self.matrix().nrows(),
                scols_view == columns_of(smith.0, cols, rows),
                vcols_view == columns_of(smith.2, cols, cols),
                scols@.map_values(|c: Vec<Fin<N>>| c@) == scols_view,
                vcols@.map_values(|c: Vec<Fin<N>>| c@) == vcols_view,
                scols@.len() == cols,
                vcols@.len() == cols,
                cs@ == self.domain().coeff_values(),
                tcs@ == self.codomain().coeff_values(),
                n == kernel_len(*self),
                k <= n,
                items@.map_values(map_first::<Vec<Fin<N>>, Seq<Fin<N>>, N>(|c: Vec<Fin<N>>| c@)) == kernel_items(
                    cs@,
                    scols_view,
                    vcols_view,
                    tcs@,
                    k as int,
                ),
            decreases n - k,
        {
            let coeff = cs[k];
            let ghost before = items@;
            proof {
                assert(kernel_entry_ok(cs@[k as int], scols_view[k as int], vcols_view[k as int], tcs@));
                assert(scols@[k as int]@ == scols_view[k as int]);
                assert(vcols@[k as int]@ == vcols_view[k as int]);
            }
            match kernel_step(coeff, &scols[k], &vcols[k], &tcs) {
                Some(p) => items.push(p),
                None => {},
            }
            proof {
                let g = map_first::<Vec<Fin<N>>, Seq<Fin<N>>, N>(|c: Vec<Fin<N>>| c@);
                assert(items@.map_values(g) =~= kernel_items(cs@, scols_view, vcols_view, tcs@, k + 1));
            }
            k += 1;
        }
        let ghost f = |c: Vec<Fin<N>>| c@;
        let ghost unsorted = items@;
        let sorted = sort_by_coeff(items, true);
        proof {
            lemma_sorted_map(unsorted, f, true);
            assert(sorted@.map_values(map_first::<Vec<Fin<N>>, Seq<Fin<N>>, N>(f)) == kernel_sorted(*self));
        }
        let ghost sorted_view = sorted@;
        let (columns, coeffs) = unzip_items(sorted);
        proof {
            let ks = kernel_sorted(*self);
            let col_views = columns@.map_values(|c: Vec<Fin<N>>| c@);
            let ks_cols = ks.map_values(|p: (Seq<Fin<N>>, Fin<N>)| p.0);
            let ks_coeffs = ks.map_values(|p: (Seq<Fin<N>>, Fin<N>)| p.1);
            assert forall|i: int| 0 <= i < col_views.len() implies #[trigger] col_views[i] == ks_cols[i] by {
                assert(ks[i] == map_first::<Vec<Fin<N>>, Seq<Fin<N>>, N>(f)(sorted_view[i]));
            }
            assert(col_views =~= ks_cols);
            assert forall|i: int| 0 <= i < coeffs@.len() implies #[trigger] coeffs@[i] == ks_coeffs[i] by {
                assert(ks[i] == map_first::<Vec<Fin<N>>, Seq<Fin<N>>, N>(f)(sorted_view[i]));
            }
            assert(coeffs@ =~= ks_coeffs);
            assert forall|i: int| 0 <= i < coeffs@.len() implies (#[trigger] coeffs@[i]).decomposable() by {
                assert(kernel_sorted(*self)[i].1 == coeffs@[i]);
            }
        }
        proof {
            lemma_kernel_items_len(cs@, scols_view, vcols_view, tcs@, n as int);
            lemma_stable_sorted_len(kernel_unsorted(*self), true);
            assert(columns@.map_values(|c: Vec<Fin<N>>| c@).flatten() == kernel_buffer(*self));
        }
        let width = columns.len() as u8;
        let tree = CoeffTree::from_iter(coeffs);
        let m = Matrix::from_cols(columns, width);
        Self::new(Arc::new(CanonModule::new(tree)), share_arc(&self.source), m)
    }

    /// The cokernel. The matrix is reduced by `pseudo_smith` to `s`, with
    /// the row operations recorded in `u`. Each generator of the target, as
    /// far as the matrix has rows, is kept whole where its row of `s`
    /// vanishes modulo its coefficient `coeff`; where the first entry `c`
    /// that does not is not one and divides `coeff` with a quotient `x`
    /// that is not one, it is kept with coefficient `x`; otherwise it is
    /// dropped. The kept generators, sorted stably by coefficient with the
    /// smallest first, make the target of the result, whose rows are the
    /// kept rows of `u` and whose source is the target of `self`.
    pub fn cokernel(&self) -> (c: Self)
        requires
            cokernel_ok(*self),
        ensures
            c.domain() == self.codomain(),
            built_from(c.codomain().tree(), cokernel_sorted(*self).map_values(|p: (Seq<Fin<N>>, Fin<N>)| p.1)),
            c.matrix().nrows() == cokernel_sorted(*self).len(),
            c.matrix().ncols() == cokernel_cols(*self),
            c.matrix().entries() == reduced_rows(
                cokernel_buffer(*self),
                cokernel_cols(*self),
                c.codomain().coeff_values(),
            ),
    {
        let ghost cols = self.map.ncols() as int;
        let ghost rows = self.map.nrows() as int;
        let ghost smith = smith_result(self.map.entries(), cols, rows);
        let (u, s, _v) = self.map.pseudo_smith();
        proof {
            assert(rows == 0 || (rows - 1) * cols <= u8::MAX) by (nonlinear_arith)
                requires
                    cols * rows <= 256,
                    cols >= 0,
                    rows >= 0,
            ;
        }
        let ts = self.target.torsion_coeffs();
        let srows = s.rows();
        let urows = u.rows();
        let nrows = self.map.num_of_rows() as usize;
        let n = if ts.len() < nrows { ts.len() } else { nrows };
        let ghost srows_view = rows_of(smith.0, cols, rows);
        let ghost urows_view = rows_of(smith.1, rows, rows);
        proof {
            assert(srows@.map_values(|c: Vec<Fin<N>>| c@) =~= srows_view);
            assert(urows@.map_values(|c: Vec<Fin<N>>| c@) =~= urows_view);
        }
        let mut items: Vec<(Vec<Fin<N>>, Fin<N>)> = Vec::new();
        let mut k: usize = 0;
        while k < n
            invariant
                srows@.map_values(|c: Vec<Fin<N>>| c@) == srows_view,
                urows@.map_values(|c: Vec<Fin<N>>| c@) == urows_view,
                srows@.len() == rows,
                urows@.len() == rows,
                ts@ == self.codomain().coeff_values(),
                rows == self.matrix().nrows(),
                n == cokernel_len(*self),
                k <= n,
                items@.map_values(map_first::<Vec<Fin<N>>, Seq<Fin<N>>, N>(|c: Vec<Fin<N>>| c@)) == cokernel_items(
                    ts@,
                    srows_view,
                    urows_view,
                    k as int,
                ),
            decreases n - k,
        {
            let coeff = ts[k];
            proof {
                assert(srows@[k as int]@ == srows_view[k as int]);
                assert(urows@[k as int]@ == urows_view[k as int]);
            }
            match cokernel_step(coeff, &srows[k], &urows[k]) {
                Some(p) => items.push(p),
                None => {},
            }
            proof {
                let g = map_first::<Vec<Fin<N>>, Seq<Fin<N>>, N>(|c: Vec<Fin<N>>| c@);
                assert(items@.map_values(g) =~= cokernel_items(ts@, srows_view, urows_view, k + 1));
            }
            k += 1;
        }
        let ghost f = |c: Vec<Fin<N>>| c@;
        let ghost unsorted = items@;
        let sorted = sort_by_coeff(items, false);
        proof {
            lemma_sorted_map(unsorted, f, false);
            assert(sorted@.map_values(map_first::<Vec<Fin<N>>, Seq<Fin<N>>, N>(f)) == cokernel_sorted(*self));
        }
        let ghost sorted_view = sorted@;
        let (kept_rows, coeffs) = unzip_items(sorted);
        proof {
            let ks = cokernel_sorted(*self);
            let row_views = kept_rows@.map_values(|c: Vec<Fin<N>>| c@);
            let ks_rows = ks.map_values(|p: (Seq<Fin<N>>, Fin<N>)| p.0);
            let ks_coeffs = ks.map_values(|p: (Seq<Fin<N>>, Fin<N>)| p.1);
            assert forall|i: int| 0 <= i < row_views.len() implies #[trigger] row_views[i] == ks_rows[i] by {
                assert(ks[i] == map_first::<Vec<Fin<N>>, Seq<Fin<N>>, N>(f)(sorted_view[i]));
            }
            assert(row_views =~= ks_rows);
            assert forall|i: int| 0 <= i < coeffs@.len() implies #[trigger] coeffs@[i] == ks_coeffs[i] by {
                assert(ks[i] == map_first::<Vec<Fin<N>>, Seq<Fin<N>>, N>(f)(sorted_view[i]));
            }
            assert(coeffs@ =~= ks_coeffs);
            lemma_cokernel_items_len(ts@, srows_view, urows_view, n as int);
            lemma_stable_sorted_len(cokernel_items(ts@, srows_view, urows_view, n as int), false);
            assert(kept_rows@.map_values(|c: Vec<Fin<N>>| c@).flatten() == cokernel_buffer(*self));
        }
        let height = kept_rows.len() as u8;
        let tree = CoeffTree::from_iter(coeffs);
        let m = Matrix::from_rows(kept_rows, height);
        let quotient = CanonModule::new(tree);
        proof {
            let kk = quotient.coeff_values().len() as int;
            let bound = all_prime_powers(cokernel_sorted(*self).map_values(|p: (Seq<Fin<N>>, Fin<N>)| p.1)).len() as int;
            let w = m.ncols() as int;
            assert(kk <= bound);
            if kk > 0 {
                assert((kk - 1) * w <= (bound - 1) * w) by (nonlinear_arith)
                    requires
                        1 <= kk <= bound,
                        w >= 0,
                ;
            }
        }
        Self::new(share_arc(&self.target), Arc::new(quotient), m)
    }

    /// The image of the element `v` of the source: the matrix applied to
    /// the column of its values, read as an element of the target, key by
    /// key as far as both go.
    pub fn evaluate_unchecked(&self, v: &CoeffTree<Fin<N>, Fin<N>>) -> (r: CoeffTree<Fin<N>, Fin<N>>)
        requires
            v.value_seq().len() <= u8::MAX,
            self.codomain().tree().wf(),
            evaluate_ok(self.matrix(), v.value_seq()),
        ensures
            r.wf(),
            r.key_seq().len() == (if self.codomain().tree().key_seq().len() < self.matrix().nrows() {
                self.codomain().tree().key_seq().len()
            } else {
                self.matrix().nrows()
            }),
            r.key_seq() == self.codomain().tree().key_seq().take(r.key_seq().len() as int),
            r.value_seq() == applied(self.matrix(), v.value_seq()).take(r.key_seq().len() as int),
    {
        let column = v.as_matrix();
        proof {
            let e = v.value_seq();
            lemma_strided_props(e, 0, 1, e.len() as int);
            assert(column.col_seq(0) =~= e);
            assert forall|row: int, col: int| 0 <= row < self.matrix().nrows() && 0 <= col < column.ncols() implies {
                &&& zip_len(#[trigger] self.matrix().row_seq(row), #[trigger] column.col_seq(col)) >= 1
                &&& dot_ok(self.matrix().row_seq(row), column.col_seq(col), zip_len(self.matrix().row_seq(row), column.col_seq(col)))
            } by {
                assert(col == 0);
            }
        }
        let image = column.compose_unchecked(&self.map);
        proof {
            assert(image.entries() =~= applied(self.matrix(), v.value_seq())) by {
                assert forall|k: int| 0 <= k < image.entries().len() implies #[trigger] image.entries()[k] == applied(self.matrix(), v.value_seq())[k] by {
                    assert(k / 1 == k && k % 1 == 0);
                }
            }
        }
        CoeffTree::from_matrix(image, self.target.coeff_tree())
    }

    /// The rows of the matrix, in order.
    pub fn rows(&self) -> (rs: Vec<Vec<Fin<N>>>)
        requires
            self.matrix().nrows() == 0 || (self.matrix().nrows() - 1) * self.matrix().ncols() <= u8::MAX,
        ensures
            rs@.len() == self.matrix().nrows(),
            forall|r: int| 0 <= r < self.matrix().nrows() ==> #[trigger] rs@[r]@ == self.matrix().row_seq(r),
    {
        self.map.rows()
    }

    /// The rows of the matrix, in order: the same as `rows`.
    pub fn cols(&self) -> (rs: Vec<Vec<Fin<N>>>)
        requires
            self.matrix().nrows() == 0 || (self.matrix().nrows() - 1) * self.matrix().ncols() <= u8::MAX,
        ensures
            rs@.len() == self.matrix().nrows(),
            forall|r: int| 0 <= r < self.matrix().nrows() ==> #[trigger] rs@[r]@ == self.matrix().row_seq(r),
    {
        self.map.rows()
    }

    /// The homomorphism from the source of `self` to the target of `other`
    /// whose matrix is the composite of the two matrices (that of `other`
    /// applied first), reduced as `new` does.
    pub fn compose_unchecked(&self, other: &Self) -> (c: Self)
        requires
            compose_ok(self.matrix(), other.matrix()),
            new_ok(other.codomain(), self.matrix().ncols()),
        ensures
            c.domain() == self.domain(),
            c.codomain() == other.codomain(),
            c.matrix().ncols() == self.matrix().ncols(),
            c.matrix().nrows() == other.matrix().nrows(),
            c.matrix().entries() == reduced_rows(
                composed(self.matrix(), other.matrix()),
                self.matrix().ncols() as int,
                other.codomain().coeff_values(),
            ),
    {
        Self::new(share_arc(&self.source), share_arc(&other.target), self.map.compose_unchecked(&other.map))
    }

    /// Whether every entry of the matrix is zero.
    pub fn is_zero(&self) -> (b: bool)
        ensures
            b <==> forall|i: int| 0 <= i < self.matrix().entries().len() ==> #[trigger] self.matrix().entries()[i].raw() == N,
    {
        let entries = self.map.iter();
        let mut i: usize = 0;
        while i < entries.len()
            invariant
                entries@ == self.matrix().entries(),
                i <= entries@.len(),
                forall|k: int| 0 <= k < i ==> #[trigger] entries@[k].raw() == N,
            decreases entries@.len() - i,
        {
            if !entries[i].is_zero() {
                return false;
            }
            i = i + 1;
        }
        true
    }

    /// The entrywise sum, from the source of `self` to the target of
    /// `other`; meant for two homomorphisms between the same modules.
    pub fn add(self, other: Self) -> (s: Self)
        requires
            forall|i: int|
                0 <= i < self.matrix().entries().len() && i < other.matrix().entries().len() ==> #[trigger] self.matrix().entries()[i].raw()
                    + #[trigger] other.matrix().entries()[i].raw() <= u16::MAX,
        ensures
            s.domain() == self.domain(),
            s.codomain() == other.codomain(),
            s.matrix().ncols() == self.matrix().ncols(),
            s.matrix().nrows() == other.matrix().nrows(),
            s.matrix().entries().len() == zip_len(self.matrix().entries(), other.matrix().entries()),
            forall|i: int|
                0 <= i < s.matrix().entries().len() ==> #[trigger] s.matrix().entries()[i] == Fin::spec_add(
                    self.matrix().entries()[i],
                    other.matrix().entries()[i],
                ),
    {
        proof {
            assert forall|i: int|
                0 <= i < self.map.entries().len() && i < other.map.entries().len() implies <Fin<N> as Semiring>::plus_ok(
                    #[trigger] self.map.entries()[i],
                    #[trigger] other.map.entries()[i],
                ) by {
                assert(self.matrix().entries()[i].raw() + other.matrix().entries()[i].raw() <= u16::MAX);
            }
        }
        let map = self.map.add(&other.map);
        CanonToCanon { source: self.source, target: other.target, map }
    }

    /// The entrywise additive inverse, between the same modules.
    pub fn neg(self) -> (n: Self)
        ensures
            n.domain() == self.domain(),
            n.codomain() == self.codomain(),
            n.matrix().ncols() == self.matrix().ncols(),
            n.matrix().nrows() == self.matrix().nrows(),
            n.matrix().entries() == self.matrix().entries().map_values(|x: Fin<N>| Fin::spec_neg(x)),
    {
        let map = self.map.neg();
        CanonToCanon { source: self.source, target: self.target, map }
    }
}

/* # evaluation */

/// The matrix `m` applied to the column `values`: for each row, the sum of
/// the products of the row with `values`, as far as both go.
pub open spec fn applied<const N: u16>(m: Matrix<Fin<N>>, values: Seq<Fin<N>>) -> Seq<Fin<N>> {
    Seq::new(m.nrows(), |row: int| dot(m.row_seq(row), values, zip_len(m.row_seq(row), values)))
}

/// Applying `m` to `values` computes in range: the rows can be read, each
/// meets `values` in at least one place, and its products and sums stay in
/// `u16`.
pub open spec fn evaluate_ok<const N: u16>(m: Matrix<Fin<N>>, values: Seq<Fin<N>>) -> bool {
    &&& m.nrows() == 0 || (m.nrows() - 1) * m.ncols() <= u8::MAX
    &&& forall|row: int|
        0 <= row < m.nrows() ==> {
            &&& zip_len(#[trigger] m.row_seq(row), values) >= 1
            &&& dot_ok(m.row_seq(row), values, zip_len(m.row_seq(row), values))
        }
}

/* # kernels */

/// `a / b` on representatives, where `b` divides `a`.
pub open spec fn exact_quotient<const N: u16>(a: Fin<N>, b: Fin<N>) -> Option<Fin<N>> {
    if b.raw() != 0 && a.raw() % b.raw() == 0 {
        Some(Fin::from_int(a.raw() / b.raw()))
    } else {
        None
    }
}

/// The first position of `col` whose entry has a nonzero remainder modulo
/// `coeff`.
pub open spec fn first_nonzero_rem<const N: u16>(col: Seq<Fin<N>>, coeff: Fin<N>) -> Option<int>
    decreases col.len(),
{
    if col.len() == 0 {
        None
    } else if Fin::spec_rem(col[0], coeff).raw() != N {
        Some(0)
    } else {
        match first_nonzero_rem(col.drop_first(), coeff) {
            Some(i) => Some(i + 1),
            None => None,
        }
    }
}

/// Every entry of `col` times `x`.
pub open spec fn scaled<const N: u16>(col: Seq<Fin<N>>, x: Fin<N>) -> Seq<Fin<N>> {
    col.map_values(|y: Fin<N>| Fin::spec_mul(y, x))
}

/// What the kernel keeps of the generator with coefficient `coeff`, whose
/// column of the reduced matrix is `scol` and whose column of the column
/// operations is `vcol`: where `scol` vanishes modulo `coeff`, the whole
/// generator; where its first entry `c` that does not sits in the row of
/// the target coefficient `t`, the multiple by `x = coeff / (t / c)` when
/// that is defined and not one; otherwise nothing.
pub open spec fn kernel_entry<const N: u16>(coeff: Fin<N>, scol: Seq<Fin<N>>, vcol: Seq<Fin<N>>, tcs: Seq<Fin<N>>) -> Option<
    (Seq<Fin<N>>, Fin<N>),
> {
    match first_nonzero_rem(scol, coeff) {
        Some(r) => match exact_quotient(coeff, exact_quotient(tcs[r], scol[r]).unwrap()) {
            Some(x) => if x.raw() != 1 {
                Some((scaled(vcol, x), x))
            } else {
                None
            },
            None => None,
        },
        None => Some((vcol, coeff)),
    }
}

/// The kernel entry is defined: the row has a target coefficient, the entry
/// divides it, and the multiple stays in `u16`.
pub open spec fn kernel_entry_ok<const N: u16>(coeff: Fin<N>, scol: Seq<Fin<N>>, vcol: Seq<Fin<N>>, tcs: Seq<Fin<N>>) -> bool {
    match first_nonzero_rem(scol, coeff) {
        Some(r) => {
            &&& r < tcs.len()
            &&& exact_quotient(tcs[r], scol[r]) is Some
            &&& match exact_quotient(coeff, exact_quotient(tcs[r], scol[r]).unwrap()) {
                Some(x) => forall|j: int| 0 <= j < vcol.len() ==> (#[trigger] vcol[j]).raw() * x.raw() <= u16::MAX,
                None => true,
            }
        },
        None => true,
    }
}

/// The kernel entries of the first `n` generators, in order.
pub open spec fn kernel_items<const N: u16>(
    cs: Seq<Fin<N>>,
    scols: Seq<Seq<Fin<N>>>,
    vcols: Seq<Seq<Fin<N>>>,
    tcs: Seq<Fin<N>>,
    n: int,
) -> Seq<(Seq<Fin<N>>, Fin<N>)>
    decreases n,
{
    if n <= 0 {
        Seq::empty()
    } else {
        kernel_items(cs, scols, vcols, tcs, n - 1) + match kernel_entry(cs[n - 1], scols[n - 1], vcols[n - 1], tcs) {
            Some(p) => seq![p],
            None => Seq::empty(),
        }
    }
}

/// The columns of a buffer of `cols` columns and `rows` rows.
pub open spec fn columns_of<const N: u16>(e: Seq<Fin<N>>, cols: int, rows: int) -> Seq<Seq<Fin<N>>> {
    Seq::new(cols as nat, |c: int| strided(e, c, cols, rows))
}

/// The number of generators that the kernel looks at: as many as both the
/// source and the matrix have.
pub open spec fn kernel_len<const N: u16>(f: CanonToCanon<Fin<N>>) -> int {
    if f.domain().coeff_values().len() < f.matrix().ncols() {
        f.domain().coeff_values().len() as int
    } else {
        f.matrix().ncols() as int
    }
}

/// The kept generators of `f`, before sorting.
pub open spec fn kernel_unsorted<const N: u16>(f: CanonToCanon<Fin<N>>) -> Seq<(Seq<Fin<N>>, Fin<N>)> {
    let cols = f.matrix().ncols() as int;
    let rows = f.matrix().nrows() as int;
    let (s, u, v) = smith_result(f.matrix().entries(), cols, rows);
    kernel_items(f.domain().coeff_values(), columns_of(s, cols, rows), columns_of(v, cols, cols), f.codomain().coeff_values(), kernel_len(f))
}

/// The kept generators of `f`, sorted stably by coefficient, the largest first.
pub open spec fn kernel_sorted<const N: u16>(f: CanonToCanon<Fin<N>>) -> Seq<(Seq<Fin<N>>, Fin<N>)> {
    stable_sorted(kernel_unsorted(f), true)
}

/// The columns of the matrix of the kernel of `f`, one after the other.
pub open spec fn kernel_buffer<const N: u16>(f: CanonToCanon<Fin<N>>) -> Seq<Fin<N>> {
    kernel_sorted(f).map_values(|p: (Seq<Fin<N>>, Fin<N>)| p.0).flatten()
}

/// The number of rows of the matrix of the kernel of `f`.
pub open spec fn kernel_rows<const N: u16>(f: CanonToCanon<Fin<N>>) -> int {
    if kernel_sorted(f).len() == 0 {
        0
    } else {
        (kernel_buffer(f).len() / kernel_sorted(f).len()) as int
    }
}

/// Everything the kernel computes stays in range: the reduction of the
/// matrix, every kept generator, the building of the new module and of its
/// matrix.
pub open spec fn kernel_ok<const N: u16>(f: CanonToCanon<Fin<N>>) -> bool {
    let cols = f.matrix().ncols() as int;
    let rows = f.matrix().nrows() as int;
    let (s, u, v) = smith_result(f.matrix().entries(), cols, rows);
    &&& N > 0
    &&& cols * rows <= 256
    &&& f.matrix().entries().len() >= cols * rows
    &&& (N <= 255 && rows <= 16) || smith_result_ok(f.matrix().entries(), cols, rows)
    &&& forall|k: int|
        0 <= k < kernel_len(f) ==> kernel_entry_ok(
            #[trigger] f.domain().coeff_values()[k],
            columns_of(s, cols, rows)[k],
            columns_of(v, cols, cols)[k],
            f.codomain().coeff_values(),
        )
    &&& forall|k: int| 0 <= k < kernel_sorted(f).len() ==> (#[trigger] kernel_sorted(f)[k]).1.decomposable()
    &&& kernel_buffer(f).len() <= u8::MAX
    &&& transpose_ok(kernel_buffer(f).len(), kernel_rows(f), kernel_sorted(f).len() as int)
    &&& new_ok(f.domain(), kernel_sorted(f).len() as nat)
}

/* # cokernels */

/// What the cokernel keeps of the target generator with coefficient
/// `coeff`, whose row of the reduced matrix is `srow` and whose row of the
/// row operations is `urow`: where `srow` vanishes modulo `coeff`, the whole
/// generator; where its first entry `c` that does not is not one and
/// divides `coeff` with a quotient `x` that is not one, the row with
/// coefficient `x`; otherwise nothing.
pub open spec fn cokernel_entry<const N: u16>(coeff: Fin<N>, srow: Seq<Fin<N>>, urow: Seq<Fin<N>>) -> Option<(Seq<Fin<N>>, Fin<N>)> {
    match first_nonzero_rem(srow, coeff) {
        Some(i) => if srow[i].raw() != 1 {
            match exact_quotient(coeff, srow[i]) {
                Some(x) => if x.raw() != 1 {
                    Some((urow, x))
                } else {
                    None
                },
                None => None,
            }
        } else {
            None
        },
        None => Some((urow, coeff)),
    }
}

/// The cokernel entries of the first `n` target generators, in order.
pub open spec fn cokernel_items<const N: u16>(ts: Seq<Fin<N>>, srows: Seq<Seq<Fin<N>>>, urows: Seq<Seq<Fin<N>>>, n: int) -> Seq<
    (Seq<Fin<N>>, Fin<N>),
>
    decreases n,
{
    if n <= 0 {
        Seq::empty()
    } else {
        cokernel_items(ts, srows, urows, n - 1) + match cokernel_entry(ts[n - 1], srows[n - 1], urows[n - 1]) {
            Some(p) => seq![p],
            None => Seq::empty(),
        }
    }
}

/// The rows of a buffer of `cols` columns and `rows` rows.
pub open spec fn rows_of<const N: u16>(e: Seq<Fin<N>>, cols: int, rows: int) -> Seq<Seq<Fin<N>>> {
    Seq::new(rows as nat, |r: int| clipped(e, r * cols, r * cols + cols))
}

/// The number of target generators that the cokernel looks at: as many as
/// both the target and the matrix have.
pub open spec fn cokernel_len<const N: u16>(f: CanonToCanon<Fin<N>>) -> int {
    if f.codomain().coeff_values().len() < f.matrix().nrows() {
        f.codomain().coeff_values().len() as int
    } else {
        f.matrix().nrows() as int
    }
}

/// The kept target generators of `f`, sorted stably by coefficient, the
/// smallest first.
pub open spec fn cokernel_sorted<const N: u16>(f: CanonToCanon<Fin<N>>) -> Seq<(Seq<Fin<N>>, Fin<N>)> {
    let cols = f.matrix().ncols() as int;
    let rows = f.matrix().nrows() as int;
    let (s, u, v) = smith_result(f.matrix().entries(), cols, rows);
    stable_sorted(cokernel_items(f.codomain().coeff_values(), rows_of(s, cols, rows), rows_of(u, rows, rows), cokernel_len(f)), false)
}

/// The rows of the matrix of the cokernel of `f`, one after the other.
pub open spec fn cokernel_buffer<const N: u16>(f: CanonToCanon<Fin<N>>) -> Seq<Fin<N>> {
    cokernel_sorted(f).map_values(|p: (Seq<Fin<N>>, Fin<N>)| p.0).flatten()
}

/// The number of columns of the matrix of the cokernel of `f`.
pub open spec fn cokernel_cols<const N: u16>(f: CanonToCanon<Fin<N>>) -> int {
    if cokernel_sorted(f).len() == 0 {
        0
    } else {
        (cokernel_buffer(f).len() / cokernel_sorted(f).len()) as int
    }
}

/// Everything the cokernel computes stays in range: the reduction of the
/// matrix, the rows of the row operations, the building of the new module
/// (whose number of keys is at most that of the prime powers of the kept
/// coefficients) and of its matrix.
pub open spec fn cokernel_ok<const N: u16>(f: CanonToCanon<Fin<N>>) -> bool {
    let cols = f.matrix().ncols() as int;
    let rows = f.matrix().nrows() as int;
    let kept = cokernel_sorted(f).map_values(|p: (Seq<Fin<N>>, Fin<N>)| p.1);
    &&& N > 0
    &&& cols * rows <= 256
    &&& f.matrix().entries().len() >= cols * rows
    &&& (N <= 255 && rows <= 16) || smith_result_ok(f.matrix().entries(), cols, rows)
    &&& rows == 0 || (rows - 1) * rows <= u8::MAX
    &&& forall|k: int| 0 <= k < kept.len() ==> (#[trigger] kept[k]).decomposable()
    &&& cokernel_buffer(f).len() <= u8::MAX
    &&& all_prime_powers(kept).len() <= 256
    &&& (all_prime_powers(kept).len() == 0 || (all_prime_powers(kept).len() - 1) * cokernel_cols(f) <= u8::MAX)
}

proof fn lemma_cokernel_items_len<const N: u16>(ts: Seq<Fin<N>>, srows: Seq<Seq<Fin<N>>>, urows: Seq<Seq<Fin<N>>>, n: int)
    requires
        0 <= n,
    ensures
        cokernel_items(ts, srows, urows, n).len() <= n,
    decreases n,
{
    if n > 0 {
        lemma_cokernel_items_len(ts, srows, urows, n - 1);
    }
}

proof fn lemma_first_nonzero_rem_range<const N: u16>(col: Seq<Fin<N>>, coeff: Fin<N>)
    ensures
        match first_nonzero_rem(col, coeff) {
            Some(i) => 0 <= i < col.len(),
            None => true,
        },
    decreases col.len(),
{
    if col.len() > 0 {
        lemma_first_nonzero_rem_range(col.drop_first(), coeff);
    }
}

proof fn lemma_kernel_items_len<const N: u16>(
    cs: Seq<Fin<N>>,
    scols: Seq<Seq<Fin<N>>>,
    vcols: Seq<Seq<Fin<N>>>,
    tcs: Seq<Fin<N>>,
    n: int,
)
    requires
        0 <= n,
    ensures
        kernel_items(cs, scols, vcols, tcs, n).len() <= n,
    decreases n,
{
    if n > 0 {
        lemma_kernel_items_len(cs, scols, vcols, tcs, n - 1);
    }
}

proof fn lemma_first_nonzero_rem<const N: u16>(col: Seq<Fin<N>>, coeff: Fin<N>, i: int)
    requires
        0 <= i <= col.len(),
        forall|k: int| 0 <= k < i ==> Fin::spec_rem(#[trigger] col[k], coeff).raw() == N,
    ensures
        i == col.len() ==> first_nonzero_rem(col, coeff) is None,
        i < col.len() && Fin::spec_rem(col[i], coeff).raw() != N ==> first_nonzero_rem(col, coeff) == Some(i),
    decreases i,
{
    if i > 0 {
        let t = col.drop_first();
        assert forall|k: int| 0 <= k < i - 1 implies Fin::spec_rem(#[trigger] t[k], coeff).raw() == N by {
            assert(t[k] == col[k + 1]);
        }
        lemma_first_nonzero_rem(t, coeff, i - 1);
        assert(Fin::spec_rem(col[0], coeff).raw() == N);
        if i < col.len() {
            assert(t[i - 1] == col[i]);
        }
    }
}

/// The first position of `col` with a nonzero remainder modulo `coeff`.
fn find_nonzero_rem<const N: u16>(col: &Vec<Fin<N>>, coeff: Fin<N>) -> (r: Option<usize>)
    ensures
        match first_nonzero_rem(col@, coeff) {
            Some(i) => r == Some(i as usize),
            None => r is None,
        },
{
    let mut i: usize = 0;
    while i < col.len()
        invariant
            i <= col@.len(),
            forall|k: int| 0 <= k < i ==> Fin::spec_rem(#[trigger] col@[k], coeff).raw() == N,
        decreases col@.len() - i,
    {
        if !col[i].rem(coeff).is_zero() {
            proof {
                lemma_first_nonzero_rem(col@, coeff, i as int);
            }
            return Some(i);
        }
        i += 1;
    }
    proof {
        lemma_first_nonzero_rem(col@, coeff, i as int);
    }
    None
}

/// What the kernel keeps of one generator.
fn kernel_step<const N: u16>(coeff: Fin<N>, scol: &Vec<Fin<N>>, vcol: &Vec<Fin<N>>, tcs: &Vec<Fin<N>>) -> (r: Option<
    (Vec<Fin<N>>, Fin<N>),
>)
    requires
        kernel_entry_ok(coeff, scol@, vcol@, tcs@),
    ensures
        match kernel_entry(coeff, scol@, vcol@, tcs@) {
            Some(p) => r is Some && (r->0).0@ == p.0 && (r->0).1 == p.1,
            None => r is None,
        },
{
    proof {
        lemma_first_nonzero_rem_range(scol@, coeff);
    }
    let len = scol.len();
    let found = find_nonzero_rem(scol, coeff);
    match found {
        Some(row) => {
            proof {
                match first_nonzero_rem(scol@, coeff) {
                    Some(i) => {
                        assert(found == Some(i as usize));
                        assert(0 <= i < scol@.len());
                        assert(scol@.len() == len);
                        assert(i == row as int);
                    },
                    None => assert(false),
                }
            }
            let c = scol[row];
            let row_coeff = tcs[row];
            match exact_quotient_of(row_coeff, c) {
                Some(q) => match exact_quotient_of(coeff, q) {
                    Some(x) => {
                        proof {
                            assert(exact_quotient(tcs@[row as int], scol@[row as int]) == Some(q));
                            assert(exact_quotient(coeff, q) == Some(x));
                        }
                        if !x.is_one() {
                            Some((scale(vcol, x), x))
                        } else {
                            None
                        }
                    },
                    None => None,
                },
                None => None,
            }
        },
        None => {
            proof {
                match first_nonzero_rem(scol@, coeff) {
                    Some(i) => assert(false),
                    None => {},
                }
            }
            let column = copy_range(vcol, 0, vcol.len());
            proof {
                assert(column@ =~= vcol@);
            }
            Some((column, coeff))
        },
    }
}

/// What the cokernel keeps of one target generator.
fn cokernel_step<const N: u16>(coeff: Fin<N>, srow: &Vec<Fin<N>>, urow: &Vec<Fin<N>>) -> (r: Option<(Vec<Fin<N>>, Fin<N>)>)
    ensures
        match cokernel_entry(coeff, srow@, urow@) {
            Some(p) => r is Some && (r->0).0@ == p.0 && (r->0).1 == p.1,
            None => r is None,
        },
{
    proof {
        lemma_first_nonzero_rem_range(srow@, coeff);
    }
    let len = srow.len();
    let found = find_nonzero_rem(srow, coeff);
    match found {
        Some(i) => {
            proof {
                match first_nonzero_rem(srow@, coeff) {
                    Some(j) => {
                        assert(found == Some(j as usize));
                        assert(0 <= j < srow@.len());
                        assert(srow@.len() == len);
                        assert(j == i as int);
                    },
                    None => assert(false),
                }
            }
            let c = srow[i];
            if !c.is_one() {
                match exact_quotient_of(coeff, c) {
                    Some(x) => {
                        if !x.is_one() {
                            let row = copy_range(urow, 0, urow.len());
                            proof {
                                assert(row@ =~= urow@);
                            }
                            Some((row, x))
                        } else {
                            None
                        }
                    },
                    None => None,
                }
            } else {
                None
            }
        },
        None => {
            proof {
                match first_nonzero_rem(srow@, coeff) {
                    Some(j) => assert(false),
                    None => {},
                }
            }
            let row = copy_range(urow, 0, urow.len());
            proof {
                assert(row@ =~= urow@);
            }
            Some((row, coeff))
        },
    }
}

/// `a / b` on representatives, where `b` divides `a`.
fn exact_quotient_of<const N: u16>(a: Fin<N>, b: Fin<N>) -> (r: Option<Fin<N>>)
    ensures
        r == exact_quotient(a, b),
{
    let x = a.get();
    let y = b.get();
    if x % y == 0 {
        Some(Fin::new(x / y))
    } else {
        None
    }
}

/// Every entry of `col` times `x`.
fn scale<const N: u16>(col: &Vec<Fin<N>>, x: Fin<N>) -> (r: Vec<Fin<N>>)
    requires
        forall|j: int| 0 <= j < col@.len() ==> (#[trigger] col@[j]).raw() * x.raw() <= u16::MAX,
    ensures
        r@ == scaled(col@, x),
{
    let mut r: Vec<Fin<N>> = Vec::new();
    let mut j: usize = 0;
    while j < col.len()
        invariant
            j <= col@.len(),
            forall|k: int| 0 <= k < col@.len() ==> (#[trigger] col@[k]).raw() * x.raw() <= u16::MAX,
            r@ == scaled(col@.take(j as int), x),
        decreases col@.len() - j,
    {
        r.push(col[j].mul(x));
        proof {
            assert(scaled(col@.take(j + 1), x) =~= scaled(col@.take(j as int), x).push(Fin::spec_mul(col@[j as int], x)));
        }
        j += 1;
    }
    proof {
        assert(col@.take(col@.len() as int) =~= col@);
    }
    r
}

/// The columns and coefficients of the kept entries, taken apart.
fn unzip_items<const N: u16>(items: Vec<(Vec<Fin<N>>, Fin<N>)>) -> (r: (Vec<Vec<Fin<N>>>, Vec<Fin<N>>))
    ensures
        r.0@.map_values(|c: Vec<Fin<N>>| c@) == items@.map_values(|p: (Vec<Fin<N>>, Fin<N>)| p.0@),
        r.1@ == items@.map_values(|p: (Vec<Fin<N>>, Fin<N>)| p.1),
{
    let ghost all = items@;
    let mut items = items;
    let mut rev_cols: Vec<Vec<Fin<N>>> = Vec::new();
    let mut rev_coeffs: Vec<Fin<N>> = Vec::new();
    while items.len() > 0
        invariant
            all.len() == items@.len() + rev_cols@.len(),
            rev_cols@.len() == rev_coeffs@.len(),
            items@ == all.take(items@.len() as int),
            forall|k: int| 0 <= k < rev_cols@.len() ==> (#[trigger] rev_cols@[k])@ == all[all.len() - 1 - k].0@,
            forall|k: int| 0 <= k < rev_coeffs@.len() ==> #[trigger] rev_coeffs@[k] == all[all.len() - 1 - k].1,
        decreases items@.len(),
    {
        let ghost before = items@;
        let (c, x) = items.pop().unwrap();
        proof {
            assert(items@ =~= all.take(items@.len() as int));
        }
        rev_cols.push(c);
        rev_coeffs.push(x);
    }
    let mut cols: Vec<Vec<Fin<N>>> = Vec::new();
    let mut coeffs: Vec<Fin<N>> = Vec::new();
    while rev_cols.len() > 0
        invariant
            rev_cols@.len() == rev_coeffs@.len(),
            all.len() == cols@.len() + rev_cols@.len(),
            cols@.len() == coeffs@.len(),
            forall|k: int| 0 <= k < rev_cols@.len() ==> (#[trigger] rev_cols@[k])@ == all[all.len() - 1 - k].0@,
            forall|k: int| 0 <= k < rev_coeffs@.len() ==> #[trigger] rev_coeffs@[k] == all[all.len() - 1 - k].1,
            forall|k: int| 0 <= k < cols@.len() ==> (#[trigger] cols@[k])@ == all[k].0@,
            forall|k: int| 0 <= k < coeffs@.len() ==> #[trigger] coeffs@[k] == all[k].1,
        decreases rev_cols@.len(),
    {
        let c = rev_cols.pop().unwrap();
        let x = rev_coeffs.pop().unwrap();
        cols.push(c);
        coeffs.push(x);
    }
    proof {
        assert(cols@.map_values(|c: Vec<Fin<N>>| c@) =~= all.map_values(|p: (Vec<Fin<N>>, Fin<N>)| p.0@));
        assert(coeffs@ =~= all.map_values(|p: (Vec<Fin<N>>, Fin<N>)| p.1));
    }
    (cols, coeffs)
}

/// Reducing row `row` of a buffer whose earlier rows are reduced gives the
/// buffer whose rows up to `row` are reduced.
proof fn lemma_row_reduced<const N: u16>(e: Seq<Fin<N>>, before: Seq<Fin<N>>, row_after: Seq<Fin<N>>, cols: int, coeffs: Seq<Fin<N>>, row: int)
    requires
        0 <= row < coeffs.len(),
        cols >= 0,
        before == reduced_rows(e, cols, coeffs.take(row)),
        row_after.len() == clipped(before, row * cols, row * cols + cols).len(),
        forall|k: int| 0 <= k < row_after.len() ==> #[trigger] row_after[k] == Fin::spec_rem(clipped(before, row * cols, row * cols + cols)[k], coeffs[row]),
    ensures
        before.subrange(0, clamp(row * cols, before.len() as int)) + row_after + before.subrange(
            clamp(row * cols + cols, before.len() as int),
            before.len() as int,
        ) == reduced_rows(e, cols, coeffs.take(row + 1)),
{
    let len = before.len() as int;
    let start = clamp(row * cols, len);
    let end = clamp(row * cols + cols, len);
    let after = before.subrange(0, start) + row_after + before.subrange(end, len);
    let target = reduced_rows(e, cols, coeffs.take(row + 1));
    assert(0 <= row * cols) by (nonlinear_arith)
        requires
            row >= 0,
            cols >= 0,
    ;
    assert(after.len() == len);
    assert forall|i: int| 0 <= i < len implies after[i] == target[i] by {
        if cols > 0 {
            if i < start {
                assert(i / cols < row) by (nonlinear_arith)
                    requires
                        cols > 0,
                        0 <= i < row * cols,
                ;
            } else if i < end {
                assert(i / cols == row) by (nonlinear_arith)
                    requires
                        cols > 0,
                        row * cols <= i < row * cols + cols,
                ;
                assert(after[i] == row_after[i - start]);
            } else {
                assert(i / cols >= row + 1) by (nonlinear_arith)
                    requires
                        cols > 0,
                        row * cols + cols <= i,
                ;
            }
        } else {
            assert(start == 0 && end == 0);
        }
    }
    assert(after =~= target);
}

} // verus!
