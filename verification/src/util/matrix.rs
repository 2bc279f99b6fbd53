use vstd::prelude::*;
use vstd::arithmetic::mul::*;
use crate::util::seq::{clamp, clipped, concat, copy_range, copy_strided, lemma_strided_props, strided};
use crate::rmodule::ring::Fin;
use std::collections::BTreeSet;
use vstd::arithmetic::div_mod::*;

verus! {

broadcast use vstd::std_specs::btree::group_btree_axioms, vstd::laws_cmp::group_laws_cmp;

/// A matrix with `cols` columns and `rows` rows, stored row by row.
///
/// Nothing ties the length of the buffer to the shape: a matrix built from a
/// buffer of another length is kept as it is, and the operations below say
/// what they do on such a matrix too.
#[derive(Clone, Debug, PartialEq, Eq, Hash)]
pub struct Matrix<T> {
    cols: u8,
    rows: u8,
    buffer: Vec<T>,
}

/// `<[T]>::swap`: the contract claims that the two entries trade places.
#[verifier::external_body]
fn swap_entries<T>(v: &mut Vec<T>, i: usize, j: usize)
    requires
        i < old(v)@.len(),
        j < old(v)@.len(),
    ensures
        final(v)@ == old(v)@.update(i as int, old(v)@[j as int]).update(j as int, old(v)@[i as int]),
{
    v.swap(i, j)
}

impl<T> Matrix<T> {
    pub closed spec fn ncols(&self) -> nat {
        self.cols as nat
    }

    pub closed spec fn nrows(&self) -> nat {
        self.rows as nat
    }

    /// The buffer, row by row.
    pub closed spec fn entries(&self) -> Seq<T> {
        self.buffer@
    }

    /// The entry in column `col` and row `row`.
    pub open spec fn entry(&self, col: int, row: int) -> T {
        self.entries()[row * self.ncols() + col]
    }

    /// Row `row`, as far as the buffer holds it.
    pub open spec fn row_seq(&self, row: int) -> Seq<T> {
        clipped(self.entries(), row * self.ncols(), row * self.ncols() + self.ncols())
    }

    /// Column `col`: the entries at `col`, `col + cols`, ... while there are
    /// rows left and the buffer holds them.
    pub open spec fn col_seq(&self, col: int) -> Seq<T> {
        strided(self.entries(), col, self.ncols() as int, self.nrows() as int)
    }

    pub fn num_of_rows(&self) -> (r: u8)
        ensures
            r == self.nrows(),
    {
        self.rows
    }

    pub fn num_of_cols(&self) -> (c: u8)
        ensures
            c == self.ncols(),
    {
        self.cols
    }

    /// The matrix with the given shape and buffer.
    pub fn from_buffer(buffer: Vec<T>, cols: u8, rows: u8) -> (m: Self)
        ensures
            m.ncols() == cols,
            m.nrows() == rows,
            m.entries() == buffer@,
    {
        Self { cols, rows, buffer }
    }

    /// The matrix whose rows are the given vectors, concatenated; the number of
    /// columns is the total length divided by `nof_rows` (0 when there are no rows).
    pub fn from_rows(rows: Vec<Vec<T>>, nof_rows: u8) -> (m: Self)
        requires
            rows@.map_values(|r: Vec<T>| r@).flatten().len() <= u8::MAX,
        ensures
            m.entries() == rows@.map_values(|r: Vec<T>| r@).flatten(),
            m.nrows() == nof_rows,
            m.ncols() == (if nof_rows == 0 { 0 } else { m.entries().len() / (nof_rows as nat) }),
    {
        let buffer = concat(rows);
        let len = buffer.len() as u8;
        Self {
            cols: if nof_rows == 0 { 0 } else { len / nof_rows },
            rows: nof_rows,
            buffer,
        }
    }

    /// The entry in column `col` and row `row`, if the buffer holds it.
    pub fn get(&self, col: u8, row: u8) -> (r: Option<&T>)
        requires
            col + self.ncols() * row <= u8::MAX,
        ensures
            col + self.ncols() * row < self.entries().len() ==> r == Some(
                &self.entries()[col + self.ncols() * row],
            ),
            col + self.ncols() * row >= self.entries().len() ==> r.is_none(),
    {
        let idx = col as usize + self.cols as usize * row as usize;
        if idx < self.buffer.len() {
            Some(&self.buffer[idx])
        } else {
            None
        }
    }

    /// Overwrites the entry at position `col + cols + row` of the buffer.
    pub fn set(&mut self, col: u8, row: u8, value: T)
        requires
            col + old(self).ncols() + row <= u8::MAX,
            col + old(self).ncols() + row < old(self).entries().len(),
        ensures
            final(self).ncols() == old(self).ncols(),
            final(self).nrows() == old(self).nrows(),
            final(self).entries() == old(self).entries().update(
                col + old(self).ncols() + row,
                value,
            ),
    {
        let idx = col as usize + self.cols as usize + row as usize;
        self.buffer.set(idx, value);
    }

    /// The buffer, row by row.
    pub fn iter(&self) -> (s: &[T])
        ensures
            s@ == self.entries(),
    {
        self.buffer.as_slice()
    }

    /// The buffer, row by row, to change in place; the shape stays.
    pub fn iter_mut(&mut self) -> (s: &mut [T])
        ensures
            s@ == old(self).entries(),
            final(self).entries() == final(s)@,
            final(self).ncols() == old(self).ncols(),
            final(self).nrows() == old(self).nrows(),
    {
        self.buffer.as_mut_slice()
    }

    /// Row `row`, as far as the buffer holds it, to change in place; the
    /// rest of the buffer and the shape stay.
    pub fn row_mut(&mut self, row: u8) -> (s: &mut [T])
        requires
            row * old(self).ncols() <= u8::MAX,
        ensures
            s@ == old(self).row_seq(row as int),
            final(self).entries() == old(self).entries().subrange(
                0,
                clamp(row * old(self).ncols(), old(self).entries().len() as int),
            ) + final(s)@ + old(self).entries().subrange(
                clamp(row * old(self).ncols() + old(self).ncols(), old(self).entries().len() as int),
                old(self).entries().len() as int,
            ),
            final(self).ncols() == old(self).ncols(),
            final(self).nrows() == old(self).nrows(),
    {
        let len = self.buffer.len();
        let lo = row as usize * self.cols as usize;
        let start = if lo < len { lo } else { len };
        let hi = start + self.cols as usize;
        let end = if hi < len { hi } else { len };
        let whole = self.buffer.as_mut_slice();
        let (_before, rest) = whole.split_at_mut(start);
        let (mid, _after) = rest.split_at_mut(end - start);
        mid
    }

    /// Applies `action` in place to every entry of column `col`: the entries
    /// at `col`, `col + cols`, ..., one per row, as far as the buffer holds
    /// them. The shape and the other entries stay as they are; each entry of
    /// the column becomes what `action`, called on a reference to the old
    /// entry, may leave behind.
    pub fn col_mut<F: Fn(&mut T)>(&mut self, col: u8, action: F)
        requires
            old(self).ncols() > 0,
            forall|x: &mut T| #[trigger] call_requires(action, (x,)),
        ensures
            final(self).ncols() == old(self).ncols(),
            final(self).nrows() == old(self).nrows(),
            final(self).entries().len() == old(self).entries().len(),
            forall|i: int|
                0 <= i < old(self).entries().len() && !in_col(i, old(self).ncols() as int, old(self).nrows() as int, col as int)
                    ==> #[trigger] final(self).entries()[i] == old(self).entries()[i],
            forall|i: int|
                0 <= i < old(self).entries().len() && #[trigger] in_col(
                    i,
                    old(self).ncols() as int,
                    old(self).nrows() as int,
                    col as int,
                ) ==> exists|x: &mut T|
                    #[trigger] call_ensures(action, (x,), ()) && *x == old(self).entries()[i] && *final(x)
                        == final(self).entries()[i],
    {
        let ghost es = self.buffer@;
        let cols = self.cols as usize;
        let rows = self.rows as usize;
        let c = col as usize;
        let mut k: usize = 0;
        let mut idx: usize = c;
        while k < rows && idx < self.buffer.len()
            invariant
                self.cols == old(self).cols,
                self.rows == old(self).rows,
                es == old(self).entries(),
                cols == self.cols as usize,
                rows == self.rows as usize,
                cols > 0,
                cols <= 255,
                rows <= 255,
                c == col as usize,
                c <= 255,
                k <= rows,
                idx == c + k * cols,
                self.buffer@.len() == es.len(),
                forall|x: &mut T| #[trigger] call_requires(action, (x,)),
                forall|i: int| 0 <= i < es.len() && !in_col(i, cols as int, k as int, c as int) ==> #[trigger] self.buffer@[i] == es[i],
                forall|i: int|
                    0 <= i < es.len() && #[trigger] in_col(i, cols as int, k as int, c as int) ==> exists|x: &mut T|
                        #[trigger] call_ensures(action, (x,), ()) && *x == es[i] && *final(x) == self.buffer@[i],
            decreases rows - k,
        {
            let ghost before = self.buffer@;
            let ghost j = idx as int;
            proof {
                lemma_in_col_step(j, cols as int, k as int, c as int);
            }
            let entry = &mut self.buffer[idx];
            action(entry);
            proof {
                assert(self.buffer@ == before.update(j, self.buffer@[j]));
                assert(exists|x: &mut T| #[trigger] call_ensures(action, (x,), ()) && *x == es[j] && *final(x) == self.buffer@[j]);
            }
            k = k + 1;
            proof {
                assert(c + k * cols == c + (k - 1) * cols + cols) by (nonlinear_arith)
                    requires
                        k >= 1,
                ;
                assert forall|i: int| 0 <= i < es.len() && !in_col(i, cols as int, k as int, c as int) implies #[trigger] self.buffer@[i] == es[i] by {
                    lemma_in_col_step(i, cols as int, (k - 1) as int, c as int);
                }
                assert forall|i: int| 0 <= i < es.len() && #[trigger] in_col(i, cols as int, k as int, c as int) implies exists|x: &mut T|
                    #[trigger] call_ensures(action, (x,), ()) && *x == es[i] && *final(x) == self.buffer@[i] by {
                    lemma_in_col_step(i, cols as int, (k - 1) as int, c as int);
                    if i == j {
                    } else {
                        assert(in_col(i, cols as int, (k - 1) as int, c as int));
                        assert(self.buffer@[i] == before[i]);
                    }
                }
            }
            proof {
                assert(c + k * cols <= 255 + 255 * 255) by (nonlinear_arith)
                    requires
                        c <= 255,
                        k <= 255,
                        cols <= 255,
                ;
            }
            idx = idx + cols;
        }
        proof {
            assert forall|i: int| 0 <= i < es.len() implies in_col(i, cols as int, k as int, c as int) == in_col(
                i,
                cols as int,
                rows as int,
                c as int,
            ) by {
                if k < rows {
                    lemma_in_col_beyond(i, cols as int, k as int, rows as int, c as int);
                }
            }
        }
    }

    /// The buffer, row by row, taken out of the matrix.
    pub fn into_iter(self) -> (v: Vec<T>)
        ensures
            v@ == self.entries(),
    {
        self.buffer
    }

    /// Swaps, for every row index `r` and every column index `c > r`, the
    /// buffer positions `r * cols + c` and `c * rows + r`, in that order.
    /// On a square matrix this transposes it.
    pub fn transpose_inplace(&mut self)
        requires
            transpose_swaps_ok(old(self).entries().len(), old(self).ncols() as int, old(self).nrows() as int),
        ensures
            final(self).ncols() == old(self).ncols(),
            final(self).nrows() == old(self).nrows(),
            final(self).entries() == transpose_swaps(
                old(self).entries(),
                old(self).ncols() as int,
                old(self).nrows() as int,
                old(self).nrows() as int,
            ),
            old(self).ncols() == old(self).nrows() && old(self).entries().len() == old(self).ncols() * old(self).nrows()
                ==> final(self).entries() == transposed(
                old(self).entries(),
                old(self).ncols() as int,
                old(self).nrows() as int,
            ),
    {
        let cols = self.cols;
        let rows = self.rows;
        let ghost e0 = self.buffer@;
        proof {
            if cols == rows && e0.len() == cols * rows {
                law_transpose_inplace_square(e0, cols as int);
            }
        }
        let mut row: u8 = 0;
        while row < rows
            invariant
                cols == self.cols,
                rows == self.rows,
                row <= rows,
                transpose_swaps_ok(e0.len(), cols as int, rows as int),
                self.buffer@ == transpose_swaps(e0, cols as int, rows as int, row as int),
            decreases rows - row,
        {
            let mut col: u8 = row + 1;
            let ghost before = self.buffer@;
            proof {
                lemma_swaps_ok_row(e0.len(), cols as int, rows as int, row as int);
                lemma_transpose_swaps_len(e0, cols as int, rows as int, row as int);
            }
            while col < cols
                invariant
                    cols == self.cols,
                    rows == self.rows,
                    row < rows,
                    row + 1 <= col,
                    col <= cols || col == row + 1,
                    transpose_swaps_ok(e0.len(), cols as int, rows as int),
                    before == transpose_swaps(e0, cols as int, rows as int, row as int),
                    row_swaps_ok(e0.len(), cols as int, rows as int, row as int),
                    self.buffer@ == swaps_in_row(before, cols as int, rows as int, row as int, col as int),
                    self.buffer@.len() == e0.len(),
                    before.len() == e0.len(),
                decreases cols - col,
            {
                proof {
                    lemma_row_swap_ok(e0.len(), cols as int, rows as int, row as int, col as int);
                    lemma_swaps_len(before, cols as int, rows as int, row as int, col as int);
                }
                let i = row as usize * cols as usize + col as usize;
                let j = col as usize * rows as usize + row as usize;
                swap_entries(&mut self.buffer, i, j);
                col = col + 1;
            }
            proof {
                if cols <= row + 1 {
                    assert(swaps_in_row(before, cols as int, rows as int, row as int, col as int)
                        == swaps_in_row(before, cols as int, rows as int, row as int, cols as int));
                }
            }
            row = row + 1;
        }
    }
}

impl<T: Copy> Matrix<T> {
    /// The matrix whose columns are the given vectors.
    pub fn from_cols(cols: Vec<Vec<T>>, nof_cols: u8) -> (m: Self)
        requires
            cols@.map_values(|c: Vec<T>| c@).flatten().len() <= u8::MAX,
            transpose_ok(
                cols@.map_values(|c: Vec<T>| c@).flatten().len(),
                (if nof_cols == 0 { 0 } else { cols@.map_values(|c: Vec<T>| c@).flatten().len() / (nof_cols as nat) }) as int,
                nof_cols as int,
            ),
        ensures
            m.ncols() == nof_cols,
            m.nrows() == (if nof_cols == 0 { 0 } else { cols@.map_values(|c: Vec<T>| c@).flatten().len() / (nof_cols as nat) }),
            m.entries() == transposed(cols@.map_values(|c: Vec<T>| c@).flatten(), m.nrows() as int, nof_cols as int),
    {
        let m = Self::from_rows(cols, nof_cols);
        m.transpose()
    }

    /// The transposed matrix: `rows` columns, `cols` rows, and the entry in
    /// column `r`, row `c` is the entry of `self` in column `c`, row `r`.
    pub fn transpose(&self) -> (t: Self)
        requires
            transpose_ok(self.entries().len(), self.ncols() as int, self.nrows() as int),
        ensures
            t.entries() == transposed(self.entries(), self.ncols() as int, self.nrows() as int),
            t.ncols() == self.nrows(),
            t.nrows() == self.ncols(),
            t.entries().len() == self.ncols() * self.nrows(),
            forall|c: int, r: int|
                0 <= c < self.ncols() && 0 <= r < self.nrows() ==> #[trigger] t.entries()[c * self.nrows() + r]
                    == self.entries()[r * self.ncols() + c],
            self.entries().len() == self.ncols() * self.nrows() ==> transposed(t.entries(), t.ncols() as int, t.nrows() as int)
                == self.entries(),
    {
        proof {
            if self.entries().len() == self.ncols() * self.nrows() {
                law_transpose_involutive(self.entries(), self.ncols() as int, self.nrows() as int);
            }
        }
        let cols = self.cols;
        let rows = self.rows;
        let mut buffer: Vec<T> = Vec::new();
        let mut col: u8 = 0;
        while col < cols
            invariant
                cols == self.cols,
                rows == self.rows,
                col <= cols,
                transpose_ok(self.buffer@.len(), cols as int, rows as int),
                buffer@ == transposed(self.buffer@, cols as int, rows as int).take(col * rows),
            decreases cols - col,
        {
            let mut row: u8 = 0;
            while row < rows
                invariant
                    cols == self.cols,
                    rows == self.rows,
                    col < cols,
                    row <= rows,
                    transpose_ok(self.buffer@.len(), cols as int, rows as int),
                    buffer@ == transposed(self.buffer@, cols as int, rows as int).take(col * rows + row),
                decreases rows - row,
            {
                proof {
                    lemma_transpose_step(self.buffer@, cols as int, rows as int, col as int, row as int);
                }
                let idx = row as usize * cols as usize + col as usize;
                buffer.push(self.buffer[idx]);
                row = row + 1;
            }
            proof {
                lemma_mul_is_distributive_add_other_way(rows as int, col as int, 1);
            }
            col = col + 1;
        }
        proof {
            lemma_transposed_props(self.buffer@, cols as int, rows as int);
            assert(buffer@ == transposed(self.buffer@, cols as int, rows as int));
        }
        Self { cols: rows, rows: cols, buffer }
    }

    /// Row `row`, as far as the buffer holds it.
    pub fn row(&self, row: u8) -> (r: Vec<T>)
        requires
            row * self.ncols() <= u8::MAX,
        ensures
            r@ == self.row_seq(row as int),
    {
        let start = row as usize * self.cols as usize;
        let end = start + self.cols as usize;
        copy_range(&self.buffer, start, end)
    }

    /// Column `col`, as far as the buffer holds it.
    pub fn col(&self, col: u8) -> (c: Vec<T>)
        requires
            self.ncols() > 0,
        ensures
            c@ == self.col_seq(col as int),
    {
        copy_strided(&self.buffer, col as usize, self.cols as usize, self.rows as usize)
    }

    /// All rows, in order.
    pub fn rows(&self) -> (rs: Vec<Vec<T>>)
        requires
            self.nrows() == 0 || (self.nrows() - 1) * self.ncols() <= u8::MAX,
        ensures
            rs@.len() == self.nrows(),
            forall|r: int| 0 <= r < self.nrows() ==> #[trigger] rs@[r]@ == self.row_seq(r),
    {
        let mut rs: Vec<Vec<T>> = Vec::new();
        let mut r: u8 = 0;
        while r < self.rows
            invariant
                r <= self.nrows(),
                self.nrows() == 0 || (self.nrows() - 1) * self.ncols() <= u8::MAX,
                rs@.len() == r,
                forall|k: int| 0 <= k < r ==> #[trigger] rs@[k]@ == self.row_seq(k),
            decreases self.nrows() - r,
        {
            proof {
                lemma_mul_inequality(r as int, self.nrows() - 1, self.ncols() as int);
            }
            rs.push(self.row(r));
            r = r + 1;
        }
        rs
    }

    /// All columns, in order.
    pub fn cols(&self) -> (cs: Vec<Vec<T>>)
        ensures
            cs@.len() == self.ncols(),
            forall|c: int| 0 <= c < self.ncols() ==> #[trigger] cs@[c]@ == self.col_seq(c),
    {
        let mut cs: Vec<Vec<T>> = Vec::new();
        let mut c: u8 = 0;
        while c < self.cols
            invariant
                c <= self.ncols(),
                cs@.len() == c,
                forall|k: int| 0 <= k < c ==> #[trigger] cs@[k]@ == self.col_seq(k),
            decreases self.ncols() - c,
        {
            cs.push(self.col(c));
            c = c + 1;
        }
        cs
    }

    /// A copy of the buffer.
    pub fn buffer(&self) -> (v: Vec<T>)
        ensures
            v@ == self.entries(),
    {
        copy_range(&self.buffer, 0, self.buffer.len())
    }
}

/* ## arithmetic */

/// The entries of a matrix that can be composed and added: a sum and a
/// product, each defined where `plus_ok` / `times_ok` hold (where the
/// machine operation does not overflow).
pub trait Semiring: Copy + Sized {
    spec fn spec_plus(a: Self, b: Self) -> Self;

    spec fn spec_times(a: Self, b: Self) -> Self;

    spec fn plus_ok(a: Self, b: Self) -> bool;

    spec fn times_ok(a: Self, b: Self) -> bool;

    fn plus(self, other: Self) -> (r: Self)
        requires
            Self::plus_ok(self, other),
        ensures
            r == Self::spec_plus(self, other),
    ;

    fn times(self, other: Self) -> (r: Self)
        requires
            Self::times_ok(self, other),
        ensures
            r == Self::spec_times(self, other),
    ;
}

impl Semiring for u8 {
    open spec fn spec_plus(a: u8, b: u8) -> u8 {
        (a + b) as u8
    }

    open spec fn spec_times(a: u8, b: u8) -> u8 {
        (a * b) as u8
    }

    open spec fn plus_ok(a: u8, b: u8) -> bool {
        a + b <= u8::MAX
    }

    open spec fn times_ok(a: u8, b: u8) -> bool {
        a * b <= u8::MAX
    }

    fn plus(self, other: u8) -> (r: u8) {
        self + other
    }

    fn times(self, other: u8) -> (r: u8) {
        self * other
    }
}

/// Booleans, with `|` as the sum and `&` as the product.
impl Semiring for bool {
    open spec fn spec_plus(a: bool, b: bool) -> bool {
        a || b
    }

    open spec fn spec_times(a: bool, b: bool) -> bool {
        a && b
    }

    open spec fn plus_ok(a: bool, b: bool) -> bool {
        true
    }

    open spec fn times_ok(a: bool, b: bool) -> bool {
        true
    }

    fn plus(self, other: bool) -> (r: bool) {
        self || other
    }

    fn times(self, other: bool) -> (r: bool) {
        self && other
    }
}

/// The number of pairs that zipping `a` with `b` yields.
pub open spec fn zip_len<T>(a: Seq<T>, b: Seq<T>) -> int {
    if a.len() < b.len() {
        a.len() as int
    } else {
        b.len() as int
    }
}

/// `a[0] * b[0] + a[1] * b[1] + ... + a[n - 1] * b[n - 1]`, summed from the left.
pub open spec fn dot<T: Semiring>(a: Seq<T>, b: Seq<T>, n: int) -> T
    decreases n,
{
    if n <= 1 {
        T::spec_times(a[0], b[0])
    } else {
        T::spec_plus(dot(a, b, n - 1), T::spec_times(a[n - 1], b[n - 1]))
    }
}

/// Every product and every partial sum of `dot(a, b, n)` is defined.
pub open spec fn dot_ok<T: Semiring>(a: Seq<T>, b: Seq<T>, n: int) -> bool
    decreases n,
{
    if n <= 1 {
        T::times_ok(a[0], b[0])
    } else {
        &&& dot_ok(a, b, n - 1)
        &&& T::times_ok(a[n - 1], b[n - 1])
        &&& T::plus_ok(dot(a, b, n - 1), T::spec_times(a[n - 1], b[n - 1]))
    }
}

/// The sum of the pairwise products of the two vectors, as far as both reach.
fn dot_exec<T: Semiring>(a: &Vec<T>, b: &Vec<T>) -> (r: T)
    requires
        zip_len(a@, b@) >= 1,
        dot_ok(a@, b@, zip_len(a@, b@)),
    ensures
        r == dot(a@, b@, zip_len(a@, b@)),
{
    let n = if a.len() < b.len() { a.len() } else { b.len() };
    proof {
        lemma_dot_ok_prefix(a@, b@, n as int, 1);
    }
    let mut acc = a[0].times(b[0]);
    let mut i: usize = 1;
    while i < n
        invariant
            1 <= i <= n,
            n == zip_len(a@, b@),
            n <= a@.len(),
            n <= b@.len(),
            dot_ok(a@, b@, n as int),
            acc == dot(a@, b@, i as int),
        decreases n - i,
    {
        proof {
            lemma_dot_ok_prefix(a@, b@, n as int, i + 1);
        }
        let p = a[i].times(b[i]);
        acc = acc.plus(p);
        i = i + 1;
    }
    acc
}

proof fn lemma_dot_ok_prefix<T: Semiring>(a: Seq<T>, b: Seq<T>, n: int, m: int)
    requires
        dot_ok(a, b, n),
        1 <= m <= n,
    ensures
        dot_ok(a, b, m),
    decreases n - m,
{
    if m < n {
        lemma_dot_ok_prefix(a, b, n - 1, m);
    }
}

/// The buffer of the composite `self ∘ other` (`other` applied first): the
/// entry in column `col`, row `row` is the sum of products of row `row` of
/// `other` with column `col` of `self`.
pub open spec fn composed<T: Semiring>(s: Matrix<T>, o: Matrix<T>) -> Seq<T> {
    Seq::new(
        s.ncols() * o.nrows(),
        |k: int| dot(o.row_seq(k / (s.ncols() as int)), s.col_seq(k % (s.ncols() as int)),
            zip_len(o.row_seq(k / (s.ncols() as int)), s.col_seq(k % (s.ncols() as int)))),
    )
}

/// What `compose_unchecked` needs: the row offsets of `other` fit in `u8`,
/// and every row of `other` meets every column of `self` in at least one
/// defined product and sum.
pub open spec fn compose_ok<T: Semiring>(s: Matrix<T>, o: Matrix<T>) -> bool {
    &&& o.nrows() == 0 || (o.nrows() - 1) * o.ncols() <= u8::MAX
    &&& forall|row: int, col: int|
        0 <= row < o.nrows() && 0 <= col < s.ncols() ==> {
            &&& zip_len(#[trigger] o.row_seq(row), #[trigger] s.col_seq(col)) >= 1
            &&& dot_ok(o.row_seq(row), s.col_seq(col), zip_len(o.row_seq(row), s.col_seq(col)))
        }
}

impl<T: Semiring> Matrix<T> {
    /// The composite `self ∘ other` (`other` applied first), meant for
    /// `self.rows == other.cols`: it has the columns of `self` and the rows of
    /// `other`, and entry (`col`, `row`) is the sum of the products of row
    /// `row` of `other` with column `col` of `self`, as far as both reach.
    pub fn compose_unchecked(&self, other: &Self) -> (c: Self)
        requires
            compose_ok(*self, *other),
        ensures
            c.ncols() == self.ncols(),
            c.nrows() == other.nrows(),
            c.entries() == composed(*self, *other),
            c.entries().len() == self.ncols() * other.nrows(),
            forall|col: int, row: int|
                0 <= col < self.ncols() && 0 <= row < other.nrows() ==> #[trigger] c.entries()[row * self.ncols() + col]
                    == dot(other.row_seq(row), self.col_seq(col), zip_len(other.row_seq(row), self.col_seq(col))),
    {
        let cols = self.cols;
        let rows = other.rows;
        let ghost full = composed(*self, *other);
        let mut buffer: Vec<T> = Vec::new();
        let mut row: u8 = 0;
        while row < rows
            invariant
                cols == self.cols,
                rows == other.rows,
                row <= rows,
                compose_ok(*self, *other),
                full == composed(*self, *other),
                buffer@ == full.take(row * cols),
            decreases rows - row,
        {
            proof {
                lemma_mul_inequality(row as int, rows - 1, other.ncols() as int);
            }
            let orow = other.row(row);
            let mut col: u8 = 0;
            while col < cols
                invariant
                    cols == self.cols,
                    rows == other.rows,
                    row < rows,
                    col <= cols,
                    compose_ok(*self, *other),
                    full == composed(*self, *other),
                    orow@ == other.row_seq(row as int),
                    buffer@ == full.take(row * cols + col),
                decreases cols - col,
            {
                let scol = self.col(col);
                proof {
                    assert(zip_len(other.row_seq(row as int), self.col_seq(col as int)) >= 1);
                    lemma_index_split(row as int, col as int, cols as int, rows as int);
                    lemma_mul_is_commutative(cols as int, rows as int);
                }
                let x = dot_exec(&orow, &scol);
                proof {
                    assert(full[row * cols + col] == x);
                    assert(full.take(row * cols + col).push(x) =~= full.take(row * cols + col + 1));
                }
                buffer.push(x);
                col = col + 1;
            }
            proof {
                lemma_mul_is_distributive_add_other_way(cols as int, row as int, 1);
            }
            row = row + 1;
        }
        proof {
            lemma_mul_is_commutative(cols as int, rows as int);
            assert(buffer@ =~= full);
            assert forall|col: int, row: int|
                0 <= col < self.ncols() && 0 <= row < other.nrows() implies #[trigger] buffer@[row * self.ncols() + col]
                    == dot(other.row_seq(row), self.col_seq(col), zip_len(other.row_seq(row), self.col_seq(col))) by {
                lemma_index_split(row, col, cols as int, rows as int);
            }
        }
        Self { cols, rows, buffer }
    }

    /// The entrywise sum, with the columns of `self` and the rows of `other`,
    /// as far as both buffers reach; meant for matrices of the same shape.
    pub fn add(&self, other: &Self) -> (s: Self)
        requires
            forall|i: int|
                0 <= i < self.entries().len() && i < other.entries().len() ==> T::plus_ok(
                    #[trigger] self.entries()[i],
                    #[trigger] other.entries()[i],
                ),
        ensures
            s.ncols() == self.ncols(),
            s.nrows() == other.nrows(),
            s.entries().len() == zip_len(self.entries(), other.entries()),
            forall|i: int|
                0 <= i < s.entries().len() ==> #[trigger] s.entries()[i] == T::spec_plus(
                    self.entries()[i],
                    other.entries()[i],
                ),
    {
        let n = if self.buffer.len() < other.buffer.len() { self.buffer.len() } else { other.buffer.len() };
        let mut buffer: Vec<T> = Vec::new();
        let mut i: usize = 0;
        while i < n
            invariant
                i <= n,
                n == zip_len(self.entries(), other.entries()),
                forall|k: int|
                    0 <= k < self.entries().len() && k < other.entries().len() ==> T::plus_ok(
                        #[trigger] self.entries()[k],
                        #[trigger] other.entries()[k],
                    ),
                buffer@.len() == i,
                forall|k: int| 0 <= k < i ==> #[trigger] buffer@[k] == T::spec_plus(self.entries()[k], other.entries()[k]),
            decreases n - i,
        {
            buffer.push(self.buffer[i].plus(other.buffer[i]));
            i = i + 1;
        }
        Self { cols: self.cols, rows: other.rows, buffer }
    }
}

impl Matrix<bool> {
    /// The composite of two relations given by boolean matrices (`other`
    /// applied first): entry (`col`, `row`) holds when some position holds in
    /// both row `row` of `other` and column `col` of `self`.
    pub fn compose_unchecked_bool(&self, other: &Self) -> (c: Self)
        requires
            compose_ok(*self, *other),
        ensures
            c.ncols() == self.ncols(),
            c.nrows() == other.nrows(),
            c.entries() == composed(*self, *other),
            forall|col: int, row: int|
                0 <= col < self.ncols() && 0 <= row < other.nrows() ==> #[trigger] c.entries()[row * self.ncols() + col]
                    == dot(other.row_seq(row), self.col_seq(col), zip_len(other.row_seq(row), self.col_seq(col))),
    {
        self.compose_unchecked(other)
    }
}

/// For booleans, `dot` holds exactly when some position holds in both.
pub proof fn lemma_bool_dot(a: Seq<bool>, b: Seq<bool>, n: int)
    requires
        1 <= n <= a.len(),
        n <= b.len(),
    ensures
        dot(a, b, n) <==> exists|i: int| 0 <= i < n && a[i] && b[i],
    decreases n,
{
    if n > 1 {
        lemma_bool_dot(a, b, n - 1);
        if dot(a, b, n) {
            if !(a[n - 1] && b[n - 1]) {
                let i = choose|i: int| 0 <= i < n - 1 && a[i] && b[i];
                assert(0 <= i < n && a[i] && b[i]);
            }
        }
    }
}

/* ## row and column operations over Z/N */

/// Position `i` lies in row `row` of a matrix with `cols` columns.
pub open spec fn in_row(i: int, cols: int, row: int) -> bool {
    row * cols <= i < row * cols + cols
}

/// Position `i` is `col + k * cols` for some `k < count`.
pub open spec fn in_col(i: int, cols: int, count: int, col: int) -> bool {
    &&& col <= i
    &&& (i - col) % cols == 0
    &&& (i - col) / cols < count
}

/// The buffer after multiplying the entries of row `row` by `r`.
pub open spec fn scaled_row<const N: u16>(e: Seq<Fin<N>>, cols: int, row: int, r: Fin<N>) -> Seq<Fin<N>> {
    Seq::new(e.len(), |i: int| if in_row(i, cols, row) { Fin::spec_mul(e[i], r) } else { e[i] })
}

pub open spec fn scaled_row_ok<const N: u16>(e: Seq<Fin<N>>, cols: int, row: int, r: Fin<N>) -> bool {
    forall|i: int| 0 <= i < e.len() && in_row(i, cols, row) ==> #[trigger] e[i].raw() * r.raw() <= u16::MAX
}

/// The buffer after multiplying the entries of column `col` (in the first
/// `rows` rows) by `r`.
pub open spec fn scaled_col<const N: u16>(e: Seq<Fin<N>>, cols: int, rows: int, col: int, r: Fin<N>) -> Seq<Fin<N>> {
    Seq::new(e.len(), |i: int| if in_col(i, cols, rows, col) { Fin::spec_mul(e[i], r) } else { e[i] })
}

pub open spec fn scaled_col_ok<const N: u16>(e: Seq<Fin<N>>, cols: int, rows: int, col: int, r: Fin<N>) -> bool {
    forall|i: int| 0 <= i < e.len() && in_col(i, cols, rows, col) ==> #[trigger] e[i].raw() * r.raw() <= u16::MAX
}

/// The position in row `src` paired with position `i` of row `dst`.
pub open spec fn row_partner(i: int, cols: int, src: int, dst: int) -> int {
    src * cols + (i - dst * cols)
}

/// The buffer after adding `r` times row `src` to row `dst`, entry by entry,
/// as far as both rows reach (row `src` is read before any change).
pub open spec fn row_added<const N: u16>(e: Seq<Fin<N>>, cols: int, src: int, dst: int, r: Fin<N>) -> Seq<Fin<N>> {
    Seq::new(
        e.len(),
        |i: int|
            if in_row(i, cols, dst) && row_partner(i, cols, src, dst) < e.len() {
                Fin::spec_add(e[i], Fin::spec_mul(e[row_partner(i, cols, src, dst)], r))
            } else {
                e[i]
            },
    )
}

pub open spec fn row_added_ok<const N: u16>(e: Seq<Fin<N>>, cols: int, src: int, dst: int, r: Fin<N>) -> bool {
    forall|i: int|
        0 <= i < e.len() && in_row(i, cols, dst) && row_partner(i, cols, src, dst) < e.len() ==> {
            &&& #[trigger] e[row_partner(i, cols, src, dst)].raw() * r.raw() <= u16::MAX
            &&& e[i].raw() + Fin::spec_mul(e[row_partner(i, cols, src, dst)], r).raw() <= u16::MAX
        }
}

/// The position in column `src` paired with position `i` of column `dst`.
pub open spec fn col_partner(i: int, cols: int, src: int, dst: int) -> int {
    src + (i - dst)
}

/// The buffer after adding `r` times column `src` to column `dst`, entry by
/// entry, in the first `rows` rows, as far as both columns reach.
pub open spec fn col_added<const N: u16>(e: Seq<Fin<N>>, cols: int, rows: int, src: int, dst: int, r: Fin<N>) -> Seq<Fin<N>> {
    Seq::new(
        e.len(),
        |i: int|
            if in_col(i, cols, rows, dst) && col_partner(i, cols, src, dst) < e.len() {
                Fin::spec_add(e[i], Fin::spec_mul(e[col_partner(i, cols, src, dst)], r))
            } else {
                e[i]
            },
    )
}

pub open spec fn col_added_ok<const N: u16>(e: Seq<Fin<N>>, cols: int, rows: int, src: int, dst: int, r: Fin<N>) -> bool {
    forall|i: int|
        0 <= i < e.len() && in_col(i, cols, rows, dst) && col_partner(i, cols, src, dst) < e.len() ==> {
            &&& #[trigger] e[col_partner(i, cols, src, dst)].raw() * r.raw() <= u16::MAX
            &&& e[i].raw() + Fin::spec_mul(e[col_partner(i, cols, src, dst)], r).raw() <= u16::MAX
        }
}

proof fn lemma_in_col_step(i: int, cols: int, k: int, col: int)
    requires
        cols > 0,
        0 <= k,
        0 <= col,
    ensures
        in_col(i, cols, k + 1, col) <==> (in_col(i, cols, k, col) || i == col + k * cols),
        i == col + k * cols ==> !in_col(i, cols, k, col),
{
    if i == col + k * cols {
        lemma_fundamental_div_mod_converse(i - col, cols, k, 0);
    }
    if col <= i && (i - col) % cols == 0 && (i - col) / cols == k {
        lemma_fundamental_div_mod(i - col, cols);
        lemma_mul_is_commutative(cols, k);
    }
}

proof fn lemma_in_col_beyond(i: int, cols: int, k: int, rows: int, col: int)
    requires
        cols > 0,
        0 <= k <= rows,
        0 <= col,
        i < col + k * cols,
    ensures
        in_col(i, cols, k, col) <==> in_col(i, cols, rows, col),
{
    if col <= i && (i - col) % cols == 0 {
        lemma_fundamental_div_mod(i - col, cols);
        let q = (i - col) / cols;
        if q >= k {
            lemma_mul_inequality(k, q, cols);
            lemma_mul_is_commutative(cols, q);
        }
    }
}

/// The buffer of the matrix with `cols` columns and `rows` rows that holds
/// one where the column index equals the row index and zero elsewhere.
pub open spec fn identity_entries<const N: u16>(cols: int, rows: int) -> Seq<Fin<N>> {
    Seq::new(
        (cols * rows) as nat,
        |i: int| if i % cols == i / cols { Fin::<N>::from_int(1) } else { Fin::<N>::from_int(0) },
    )
}

impl<const N: u16> Matrix<Fin<N>> {
    /// The matrix with ones where the column index equals the row index and
    /// zeros elsewhere.
    pub fn identity(cols: u8, rows: u8) -> (m: Self)
        requires
            N > 0,
        ensures
            m.ncols() == cols,
            m.nrows() == rows,
            m.entries().len() == cols * rows,
            m.entries() == identity_entries::<N>(cols as int, rows as int),
            forall|c: int, r: int|
                0 <= c < cols && 0 <= r < rows ==> #[trigger] m.entries()[r * cols + c] == (if r == c {
                    Fin::<N>::from_int(1)
                } else {
                    Fin::<N>::from_int(0)
                }),
    {
        let mut buffer: Vec<Fin<N>> = Vec::new();
        let mut r: u8 = 0;
        while r < rows
            invariant
                N > 0,
                r <= rows,
                buffer@.len() == r * cols,
                forall|rr: int, c: int|
                    0 <= c < cols && 0 <= rr < r ==> #[trigger] buffer@[rr * cols + c] == (if rr == c {
                        Fin::<N>::from_int(1)
                    } else {
                        Fin::<N>::from_int(0)
                    }),
            decreases rows - r,
        {
            let mut c: u8 = 0;
            while c < cols
                invariant
                    N > 0,
                    r < rows,
                    c <= cols,
                    buffer@.len() == r * cols + c,
                    forall|rr: int, cc: int|
                        0 <= cc < cols && 0 <= rr < r ==> #[trigger] buffer@[rr * cols + cc] == (if rr == cc {
                            Fin::<N>::from_int(1)
                        } else {
                            Fin::<N>::from_int(0)
                        }),
                    forall|cc: int|
                        0 <= cc < c ==> #[trigger] buffer@[r * cols + cc] == (if r == cc {
                            Fin::<N>::from_int(1)
                        } else {
                            Fin::<N>::from_int(0)
                        }),
                decreases cols - c,
            {
                let x = if r == c { Fin::<N>::one() } else { Fin::<N>::zero() };
                buffer.push(x);
                proof {
                    assert forall|rr: int, cc: int| 0 <= cc < cols && 0 <= rr < r implies
                        #[trigger] buffer@[rr * cols + cc] == (if rr == cc { Fin::<N>::from_int(1) } else { Fin::<N>::from_int(0) }) by {
                        lemma_index_split(rr, cc, cols as int, r as int);
                        lemma_mul_is_commutative(cols as int, r as int);
                    }
                }
                c = c + 1;
            }
            proof {
                assert forall|rr: int, cc: int| 0 <= cc < cols && 0 <= rr < r + 1 implies
                    #[trigger] buffer@[rr * cols + cc] == (if rr == cc { Fin::<N>::from_int(1) } else { Fin::<N>::from_int(0) }) by {
                    if rr == r {
                    } else {
                    }
                }
                lemma_mul_is_distributive_add_other_way(cols as int, r as int, 1);
            }
            r = r + 1;
        }
        proof {
            lemma_mul_is_commutative(rows as int, cols as int);
            assert forall|i: int| 0 <= i < buffer@.len() implies #[trigger] buffer@[i] == identity_entries::<N>(cols as int, rows as int)[i] by {
                lemma_fundamental_div_mod(i, cols as int);
                lemma_mod_bound(i, cols as int);
                lemma_div_pos_is_pos(i, cols as int);
                lemma_mul_is_commutative(cols as int, i / cols as int);
                if i / (cols as int) >= rows {
                    lemma_mul_inequality(rows as int, i / (cols as int), cols as int);
                }
                let rr = i / (cols as int);
                let cc = i % (cols as int);
                assert(buffer@[rr * cols + cc] == (if rr == cc { Fin::<N>::from_int(1) } else { Fin::<N>::from_int(0) }));
            }
            assert(buffer@ =~= identity_entries::<N>(cols as int, rows as int));
        }
        Self::from_buffer(buffer, cols, rows)
    }

    /// The entrywise additive inverse.
    pub fn neg(&self) -> (m: Self)
        ensures
            m.ncols() == self.ncols(),
            m.nrows() == self.nrows(),
            m.entries() == self.entries().map_values(|x: Fin<N>| Fin::spec_neg(x)),
    {
        let mut buffer: Vec<Fin<N>> = Vec::new();
        let mut i: usize = 0;
        while i < self.buffer.len()
            invariant
                i <= self.buffer@.len(),
                buffer@ == self.buffer@.take(i as int).map_values(|x: Fin<N>| Fin::spec_neg(x)),
            decreases self.buffer@.len() - i,
        {
            buffer.push(self.buffer[i].neg());
            proof {
                assert(self.buffer@.take(i + 1).map_values(|x: Fin<N>| Fin::spec_neg(x)) =~= buffer@);
            }
            i = i + 1;
        }
        proof {
            assert(self.buffer@.take(self.buffer@.len() as int) =~= self.buffer@);
        }
        Self { cols: self.cols, rows: self.rows, buffer }
    }

    /// Multiplies every entry of row `row` by `r`.
    pub fn mul_row_by(&mut self, row: u8, r: Fin<N>)
        requires
            row * old(self).ncols() <= u8::MAX,
            scaled_row_ok(old(self).entries(), old(self).ncols() as int, row as int, r),
        ensures
            final(self).ncols() == old(self).ncols(),
            final(self).nrows() == old(self).nrows(),
            final(self).entries() == scaled_row(old(self).entries(), old(self).ncols() as int, row as int, r),
    {
        let ghost e = self.buffer@;
        let ghost rows0 = self.rows;
        let cols = self.cols as usize;
        let len = self.buffer.len();
        let start = row as usize * cols;
        let mut i = start;
        while i < start + cols && i < len
            invariant
                start == row * cols,
                start <= u8::MAX,
                cols <= u8::MAX,
                i <= start + cols,
                cols == self.ncols(),
                self.rows == rows0,
                len == e.len(),
                self.buffer@.len() == len,
                start <= i,
                scaled_row_ok(e, cols as int, row as int, r),
                forall|k: int| 0 <= k < len ==> #[trigger] self.buffer@[k] == (if start <= k < i { Fin::spec_mul(e[k], r) } else { e[k] }),
            decreases len - i,
        {
            assert(in_row(i as int, cols as int, row as int));
            let x = self.buffer[i].mul(r);
            self.buffer.set(i, x);
            i = i + 1;
        }
        proof {
            assert(self.buffer@ =~= scaled_row(e, cols as int, row as int, r));
        }
    }

    /// Multiplies every entry of column `col` by `r`.
    pub fn mul_col_by(&mut self, col: u8, r: Fin<N>)
        requires
            old(self).ncols() > 0,
            scaled_col_ok(old(self).entries(), old(self).ncols() as int, old(self).nrows() as int, col as int, r),
        ensures
            final(self).ncols() == old(self).ncols(),
            final(self).nrows() == old(self).nrows(),
            final(self).entries() == scaled_col(old(self).entries(), old(self).ncols() as int, old(self).nrows() as int, col as int, r),
    {
        let ghost e = self.buffer@;
        let cols = self.cols as usize;
        let rows = self.rows as usize;
        let len = self.buffer.len();
        let mut idx = col as usize;
        let mut k: usize = 0;
        while k < rows && idx < len
            invariant
                cols == self.ncols(),
                rows == self.nrows(),
                cols > 0,
                len == e.len(),
                self.buffer@.len() == len,
                k <= rows,
                idx == col + k * cols || (idx == len && col + k * cols >= len),
                scaled_col_ok(e, cols as int, rows as int, col as int, r),
                forall|i: int| 0 <= i < len ==> #[trigger] self.buffer@[i] == (if in_col(i, cols as int, k as int, col as int) { Fin::spec_mul(e[i], r) } else { e[i] }),
            decreases rows - k,
        {
            proof {
                lemma_mul_is_distributive_add_other_way(cols as int, k as int, 1);
                lemma_in_col_step(idx as int, cols as int, k as int, col as int);
            }
            let x = self.buffer[idx].mul(r);
            self.buffer.set(idx, x);
            proof {
                assert forall|i: int| 0 <= i < len implies #[trigger] self.buffer@[i] == (if in_col(i, cols as int, k + 1, col as int) { Fin::spec_mul(e[i], r) } else { e[i] }) by {
                    lemma_in_col_step(i, cols as int, k as int, col as int);
                }
            }
            idx = if len - idx <= cols { len } else { idx + cols };
            k = k + 1;
        }
        proof {
            assert forall|i: int| 0 <= i < len implies (in_col(i, cols as int, k as int, col as int) <==> in_col(i, cols as int, rows as int, col as int)) by {
                if k < rows {
                    lemma_mul_nonnegative(k as int, cols as int);
                    lemma_in_col_beyond(i, cols as int, k as int, rows as int, col as int);
                }
            }
            assert(self.buffer@ =~= scaled_col(e, cols as int, rows as int, col as int, r));
        }
    }

    /// Adds `r` times row `muled_row` to row `to_row`, entry by entry, as far
    /// as both rows reach.
    pub fn add_muled_row_to_row(&mut self, muled_row: u8, to_row: u8, r: Fin<N>)
        requires
            muled_row * old(self).ncols() <= u8::MAX,
            to_row * old(self).ncols() <= u8::MAX,
            row_added_ok(old(self).entries(), old(self).ncols() as int, muled_row as int, to_row as int, r),
        ensures
            final(self).ncols() == old(self).ncols(),
            final(self).nrows() == old(self).nrows(),
            final(self).entries() == row_added(old(self).entries(), old(self).ncols() as int, muled_row as int, to_row as int, r),
    {
        let ghost e = self.buffer@;
        let ghost rows0 = self.rows;
        let mrow = self.row(muled_row);
        let cols = self.cols as usize;
        let len = self.buffer.len();
        let start = to_row as usize * cols;
        let mut k: usize = 0;
        while k < cols && k < mrow.len() && start + k < len
            invariant
                start == to_row * cols,
                start <= u8::MAX,
                cols <= u8::MAX,
                cols == self.ncols(),
                self.rows == rows0,
                len == e.len(),
                self.buffer@.len() == len,
                mrow@ == clipped(e, muled_row * cols, muled_row * cols + cols),
                muled_row * cols <= u8::MAX,
                k <= cols,
                k <= mrow@.len(),
                row_added_ok(e, cols as int, muled_row as int, to_row as int, r),
                forall|i: int| 0 <= i < len ==> #[trigger] self.buffer@[i] == (if start <= i < start + k {
                    Fin::spec_add(e[i], Fin::spec_mul(e[row_partner(i, cols as int, muled_row as int, to_row as int)], r))
                } else {
                    e[i]
                }),
            decreases cols - k,
        {
            let i = start + k;
            assert(in_row(i as int, cols as int, to_row as int));
            assert(mrow@[k as int] == e[row_partner(i as int, cols as int, muled_row as int, to_row as int)]);
            let x = self.buffer[i].add(mrow[k].mul(r));
            self.buffer.set(i, x);
            k = k + 1;
        }
        proof {
            let src = muled_row * cols;
            assert forall|i: int| 0 <= i < len implies ((start <= i < start + k) <==> (in_row(i, cols as int, to_row as int)
                && row_partner(i, cols as int, muled_row as int, to_row as int) < len)) by {
                if in_row(i, cols as int, to_row as int) {
                    assert(row_partner(i, cols as int, muled_row as int, to_row as int) == src + (i - start));
                    if src >= len {
                        assert(mrow@.len() == 0);
                    } else if src + cols >= len {
                        assert(mrow@.len() == len - src);
                    } else {
                        assert(mrow@.len() == cols);
                    }
                }
            }
            assert(self.buffer@ =~= row_added(e, cols as int, muled_row as int, to_row as int, r));
        }
    }

    /// Adds `r` times column `muled_col` to column `to_col`, entry by entry,
    /// in the first `rows` rows, as far as both columns reach.
    pub fn add_muled_col_to_col(&mut self, muled_col: u8, to_col: u8, r: Fin<N>)
        requires
            old(self).ncols() > 0,
            col_added_ok(old(self).entries(), old(self).ncols() as int, old(self).nrows() as int, muled_col as int, to_col as int, r),
        ensures
            final(self).ncols() == old(self).ncols(),
            final(self).nrows() == old(self).nrows(),
            final(self).entries() == col_added(old(self).entries(), old(self).ncols() as int, old(self).nrows() as int, muled_col as int, to_col as int, r),
    {
        let ghost e = self.buffer@;
        let mcol = self.col(muled_col);
        let cols = self.cols as usize;
        let rows = self.rows as usize;
        let len = self.buffer.len();
        let mut idx = to_col as usize;
        let mut k: usize = 0;
        proof {
            lemma_strided_props(e, muled_col as int, cols as int, rows as int);
        }
        while k < rows && idx < len && k < mcol.len()
            invariant
                cols == self.ncols(),
                rows == self.nrows(),
                cols > 0,
                len == e.len(),
                self.buffer@.len() == len,
                k <= rows,
                idx == to_col + k * cols || (idx == len && to_col + k * cols >= len),
                mcol@ == strided(e, muled_col as int, cols as int, rows as int),
                forall|j: int| 0 <= j < mcol@.len() ==> #[trigger] mcol@[j] == e[muled_col + j * cols] && muled_col + j * cols < len,
                mcol@.len() <= rows,
                k <= mcol@.len(),
                mcol@.len() < rows ==> muled_col + mcol@.len() * cols >= len,
                col_added_ok(e, cols as int, rows as int, muled_col as int, to_col as int, r),
                forall|i: int| 0 <= i < len ==> #[trigger] self.buffer@[i] == (if in_col(i, cols as int, k as int, to_col as int) && col_partner(i, cols as int, muled_col as int, to_col as int) < len {
                    Fin::spec_add(e[i], Fin::spec_mul(e[col_partner(i, cols as int, muled_col as int, to_col as int)], r))
                } else {
                    e[i]
                }),
            decreases rows - k,
        {
            proof {
                lemma_mul_is_distributive_add_other_way(cols as int, k as int, 1);
                lemma_in_col_step(idx as int, cols as int, k as int, to_col as int);
                lemma_in_col_beyond(idx as int, cols as int, k as int + 1, rows as int, to_col as int);
                assert(in_col(idx as int, cols as int, rows as int, to_col as int));
                assert(col_partner(idx as int, cols as int, muled_col as int, to_col as int) == muled_col + k * cols);
            }
            let x = self.buffer[idx].add(mcol[k].mul(r));
            self.buffer.set(idx, x);
            proof {
                assert forall|i: int| 0 <= i < len implies #[trigger] self.buffer@[i] == (if in_col(i, cols as int, k + 1, to_col as int) && col_partner(i, cols as int, muled_col as int, to_col as int) < len {
                    Fin::spec_add(e[i], Fin::spec_mul(e[col_partner(i, cols as int, muled_col as int, to_col as int)], r))
                } else {
                    e[i]
                }) by {
                    lemma_in_col_step(i, cols as int, k as int, to_col as int);
                }
            }
            idx = if len - idx <= cols { len } else { idx + cols };
            k = k + 1;
        }
        proof {
            assert forall|i: int| 0 <= i < len implies ((in_col(i, cols as int, k as int, to_col as int) && col_partner(i, cols as int, muled_col as int, to_col as int) < len)
                <==> (in_col(i, cols as int, rows as int, to_col as int) && col_partner(i, cols as int, muled_col as int, to_col as int) < len)) by {
                lemma_mul_nonnegative(k as int, cols as int);
                if k < rows {
                    if idx >= len {
                        lemma_in_col_beyond(i, cols as int, k as int, rows as int, to_col as int);
                    } else {
                        // the column to add from ended at row k
                        assert(k == mcol@.len());
                        if in_col(i, cols as int, rows as int, to_col as int) && !in_col(i, cols as int, k as int, to_col as int) {
                            lemma_fundamental_div_mod(i - to_col, cols as int);
                            let q = (i - to_col) / (cols as int);
                            lemma_mul_inequality(k as int, q, cols as int);
                            lemma_mul_is_commutative(cols as int, q);
                        }
                    }
                }
            }
            assert(self.buffer@ =~= col_added(e, cols as int, rows as int, muled_col as int, to_col as int, r));
        }
    }

    /// Among the entries outside the given columns and rows that are not zero,
    /// the position (column, row) of one with the least representative; of
    /// several such, the one with the least column, and then the least row.
    pub fn smallest_nonzero_entry(&self, done_cols: &BTreeSet<u8>, done_rows: &BTreeSet<u8>) -> (p: Option<(u8, u8)>)
        requires
            forall|c: int, r: int|
                0 <= c < self.ncols() && 0 <= r < self.nrows() && !done_cols@.contains(c as u8) && !done_rows@.contains(r as u8)
                    ==> #[trigger] (c + self.ncols() * r) < self.entries().len() && c + self.ncols() * r <= u8::MAX,
        ensures
            p == smallest_candidate(self.entries(), self.ncols() as int, self.nrows() as int, done_cols@, done_rows@),
            p matches Some((c, r)) ==> is_candidate(self.entries(), self.ncols() as int, self.nrows() as int, done_cols@, done_rows@, c as int, r as int),
            p is None ==> forall|c: int, r: int| !is_candidate(self.entries(), self.ncols() as int, self.nrows() as int, done_cols@, done_rows@, c, r),
    {
        let cols = self.cols;
        let rows = self.rows;
        let mut best: Option<(u8, u8)> = None;
        let mut best_raw: u16 = 0;
        let mut c: u8 = 0;
        while c < cols
            invariant
                cols == self.ncols(),
                rows == self.nrows(),
                c <= cols,
                forall|cc: int, r: int|
                    0 <= cc < self.ncols() && 0 <= r < self.nrows() && !done_cols@.contains(cc as u8) && !done_rows@.contains(r as u8)
                        ==> #[trigger] (cc + self.ncols() * r) < self.entries().len() && cc + self.ncols() * r <= u8::MAX,
                scan_result(self.entries(), self.ncols() as int, self.nrows() as int, done_cols@, done_rows@, c as int, 0, best),
                best matches Some((bc, br)) ==> best_raw == self.entries()[br * self.ncols() + bc].raw(),
            decreases cols - c,
        {
            if !done_cols.contains(&c) {
                let mut r: u8 = 0;
                while r < rows
                    invariant
                        cols == self.ncols(),
                        rows == self.nrows(),
                        c < cols,
                        r <= rows,
                        !done_cols@.contains(c),
                        forall|cc: int, rr: int|
                            0 <= cc < self.ncols() && 0 <= rr < self.nrows() && !done_cols@.contains(cc as u8) && !done_rows@.contains(rr as u8)
                                ==> #[trigger] (cc + self.ncols() * rr) < self.entries().len() && cc + self.ncols() * rr <= u8::MAX,
                        scan_result(self.entries(), self.ncols() as int, self.nrows() as int, done_cols@, done_rows@, c as int, r as int, best),
                        best matches Some((bc, br)) ==> best_raw == self.entries()[br * self.ncols() + bc].raw(),
                    decreases rows - r,
                {
                    if !done_rows.contains(&r) {
                        assert((c + self.ncols() * r) < self.entries().len() && c + self.ncols() * r <= u8::MAX);
                        let idx = c as usize + cols as usize * r as usize;
                        let x = self.buffer[idx];
                        proof {
                            lemma_mul_is_commutative(self.ncols() as int, r as int);
                        }
                        let raw = x.get();
                        if !x.is_zero() {
                            match best {
                                None => {
                                    best = Some((c, r));
                                    best_raw = raw;
                                },
                                Some(_) => {
                                    if raw < best_raw {
                                        best = Some((c, r));
                                        best_raw = raw;
                                    }
                                },
                            }
                        }
                    }
                    r = r + 1;
                }
            }
            c = c + 1;
        }
        proof {
            lemma_scan_complete(self.entries(), self.ncols() as int, self.nrows() as int, done_cols@, done_rows@, best);
            if best is None {
                assert forall|c2: int, r2: int| !is_candidate(self.entries(), self.ncols() as int, self.nrows() as int, done_cols@, done_rows@, c2, r2) by {
                    if is_candidate(self.entries(), self.ncols() as int, self.nrows() as int, done_cols@, done_rows@, c2, r2) {
                        assert(scanned_before(c2, r2, cols as int, 0));
                    }
                }
            }
        }
        best
    }
}

/* ## the search for the least nonzero entry */

/// In a buffer of `rows` rows of `cols` entries: position (`c`, `r`) is
/// neither in a done column nor a done row, and its entry is not zero.
pub open spec fn is_candidate<const N: u16>(e: Seq<Fin<N>>, cols: int, rows: int, dc: Set<u8>, dr: Set<u8>, c: int, r: int) -> bool {
    &&& 0 <= c < cols
    &&& 0 <= r < rows
    &&& !dc.contains(c as u8)
    &&& !dr.contains(r as u8)
    &&& e[r * cols + c].raw() != N
}

/// Candidate (`c`, `r`) comes before (`c2`, `r2`): a smaller representative,
/// or the same one at an earlier column, or in the same column at an earlier row.
pub open spec fn precedes<const N: u16>(e: Seq<Fin<N>>, cols: int, c: int, r: int, c2: int, r2: int) -> bool {
    ||| e[r * cols + c].raw() < e[r2 * cols + c2].raw()
    ||| (e[r * cols + c].raw() == e[r2 * cols + c2].raw() && (c < c2 || (c == c2 && r <= r2)))
}

/// The candidate that precedes every other one, if there is any candidate.
pub open spec fn smallest_candidate<const N: u16>(e: Seq<Fin<N>>, cols: int, rows: int, dc: Set<u8>, dr: Set<u8>) -> Option<(u8, u8)> {
    if exists|c: int, r: int| is_candidate(e, cols, rows, dc, dr, c, r) {
        let (c, r) = choose|c: int, r: int|
            is_candidate(e, cols, rows, dc, dr, c, r) && forall|c2: int, r2: int|
                is_candidate(e, cols, rows, dc, dr, c2, r2) ==> precedes(e, cols, c, r, c2, r2);
        Some((c as u8, r as u8))
    } else {
        None
    }
}

/// Position (`c2`, `r2`) is scanned before (`c`, `r`): column by column, and
/// row by row inside a column.
pub open spec fn scanned_before(c2: int, r2: int, c: int, r: int) -> bool {
    c2 < c || (c2 == c && r2 < r)
}

/// What the scan of `smallest_nonzero_entry` knows once it has looked at
/// every position scanned before (`c`, `r`).
pub open spec fn scan_result<const N: u16>(e: Seq<Fin<N>>, cols: int, rows: int, dc: Set<u8>, dr: Set<u8>, c: int, r: int, best: Option<(u8, u8)>) -> bool {
    match best {
        None => forall|c2: int, r2: int| !(#[trigger] is_candidate(e, cols, rows, dc, dr, c2, r2) && scanned_before(c2, r2, c, r)),
        Some((bc, br)) => {
            &&& is_candidate(e, cols, rows, dc, dr, bc as int, br as int)
            &&& scanned_before(bc as int, br as int, c, r)
            &&& forall|c2: int, r2: int|
                #[trigger] is_candidate(e, cols, rows, dc, dr, c2, r2) && scanned_before(c2, r2, c, r) ==> precedes(e, cols, bc as int, br as int, c2, r2)
        },
    }
}

proof fn lemma_scan_complete<const N: u16>(e: Seq<Fin<N>>, cols: int, rows: int, dc: Set<u8>, dr: Set<u8>, best: Option<(u8, u8)>)
    requires
        scan_result(e, cols, rows, dc, dr, cols, 0, best),
    ensures
        best == smallest_candidate(e, cols, rows, dc, dr),
{
    if exists|c: int, r: int| is_candidate(e, cols, rows, dc, dr, c, r) {
        let (c0, r0) = choose|c: int, r: int| is_candidate(e, cols, rows, dc, dr, c, r);
        assert(scanned_before(c0, r0, cols, 0));
        let (bc, br) = best.unwrap();
        let (c, r) = choose|c: int, r: int|
            is_candidate(e, cols, rows, dc, dr, c, r) && forall|c2: int, r2: int|
                is_candidate(e, cols, rows, dc, dr, c2, r2) ==> precedes(e, cols, c, r, c2, r2);
        assert(is_candidate(e, cols, rows, dc, dr, bc as int, br as int) && forall|c2: int, r2: int|
            is_candidate(e, cols, rows, dc, dr, c2, r2) ==> precedes(e, cols, bc as int, br as int, c2, r2));
        assert(precedes(e, cols, c, r, bc as int, br as int));
        assert(precedes(e, cols, bc as int, br as int, c, r));
        assert(c == bc as int && r == br as int);
    }
}

/// The scan of `smallest_nonzero_entry`, done in spec: some `best` meets
/// `scan_result` at every point of the scan.
proof fn lemma_scan_exists<const N: u16>(e: Seq<Fin<N>>, cols: int, rows: int, dc: Set<u8>, dr: Set<u8>, c: int, r: int) -> (best: Option<(u8, u8)>)
    requires
        0 <= c <= cols <= 255,
        0 <= r <= rows <= 255,
    ensures
        scan_result(e, cols, rows, dc, dr, c, r, best),
    decreases c, r,
{
    if r > 0 {
        let prev = lemma_scan_exists(e, cols, rows, dc, dr, c, r - 1);
        let rr = r - 1;
        if c < cols && is_candidate(e, cols, rows, dc, dr, c, rr) {
            match prev {
                None => {
                    let best = Some((c as u8, rr as u8));
                    assert forall|c2: int, r2: int|
                        #[trigger] is_candidate(e, cols, rows, dc, dr, c2, r2) && scanned_before(c2, r2, c, r) implies precedes(e, cols, c, rr, c2, r2) by {
                        if scanned_before(c2, r2, c, rr) {
                        }
                    }
                    best
                },
                Some((bc, br)) => {
                    if e[rr * cols + c].raw() < e[br * cols + bc].raw() {
                        let best = Some((c as u8, rr as u8));
                        assert forall|c2: int, r2: int|
                            #[trigger] is_candidate(e, cols, rows, dc, dr, c2, r2) && scanned_before(c2, r2, c, r) implies precedes(e, cols, c, rr, c2, r2) by {
                            if scanned_before(c2, r2, c, rr) {
                                assert(precedes(e, cols, bc as int, br as int, c2, r2));
                            }
                        }
                        best
                    } else {
                        prev
                    }
                },
            }
        } else {
            prev
        }
    } else if c > 0 {
        let prev = lemma_scan_exists(e, cols, rows, dc, dr, c - 1, rows);
        assert forall|c2: int, r2: int|
            #[trigger] is_candidate(e, cols, rows, dc, dr, c2, r2) implies (scanned_before(c2, r2, c, 0) <==> scanned_before(c2, r2, c - 1, rows)) by {
        }
        prev
    } else {
        None
    }
}

/// The least candidate, when there is one, is a candidate; there is none
/// exactly when no position is a candidate.
pub proof fn lemma_smallest_candidate<const N: u16>(e: Seq<Fin<N>>, cols: int, rows: int, dc: Set<u8>, dr: Set<u8>)
    requires
        0 <= cols <= 255,
        0 <= rows <= 255,
    ensures
        smallest_candidate(e, cols, rows, dc, dr) matches Some((c, r)) ==> is_candidate(e, cols, rows, dc, dr, c as int, r as int),
        smallest_candidate(e, cols, rows, dc, dr) is None ==> forall|c: int, r: int| !is_candidate(e, cols, rows, dc, dr, c, r),
{
    let best = lemma_scan_exists(e, cols, rows, dc, dr, cols, 0);
    lemma_scan_complete(e, cols, rows, dc, dr, best);
}

/* ## specifications of the shape-changing operations */

/// `transpose` reads every position `r * cols + c` for `r < rows`, `c < cols`
/// with `u8` arithmetic.
pub open spec fn transpose_ok(len: nat, cols: int, rows: int) -> bool {
    &&& cols * rows <= 256
    &&& cols * rows <= len
}

/// The buffer of the transposed matrix: column by column of the original.
pub open spec fn transposed<T>(e: Seq<T>, cols: int, rows: int) -> Seq<T> {
    Seq::new((cols * rows) as nat, |k: int| e[(k % rows) * cols + k / rows])
}

/// The swaps of `transpose_inplace` stay inside the buffer and inside `u8`.
pub open spec fn transpose_swaps_ok(len: nat, cols: int, rows: int) -> bool {
    forall|r: int, c: int|
        0 <= r < rows && r < c < cols ==> #[trigger] row_swap_ok(len, cols, rows, r, c)
}

pub open spec fn row_swap_ok(len: nat, cols: int, rows: int, r: int, c: int) -> bool {
    &&& r * cols + c <= u8::MAX
    &&& c * rows + r <= u8::MAX
    &&& r * cols + c < len
    &&& c * rows + r < len
}

pub open spec fn row_swaps_ok(len: nat, cols: int, rows: int, r: int) -> bool {
    forall|c: int| r < c < cols ==> #[trigger] row_swap_ok(len, cols, rows, r, c)
}

/// The buffer after the swaps of row `r` for the columns `r + 1 .. c`.
pub open spec fn swaps_in_row<T>(e: Seq<T>, cols: int, rows: int, r: int, c: int) -> Seq<T>
    decreases c - r,
{
    if c <= r + 1 {
        e
    } else {
        let prev = swaps_in_row(e, cols, rows, r, c - 1);
        let i = r * cols + (c - 1);
        let j = (c - 1) * rows + r;
        prev.update(i, prev[j]).update(j, prev[i])
    }
}

/// The buffer after the swaps of the first `r` rows.
pub open spec fn transpose_swaps<T>(e: Seq<T>, cols: int, rows: int, r: int) -> Seq<T>
    decreases r,
{
    if r <= 0 {
        e
    } else {
        let prev = transpose_swaps(e, cols, rows, r - 1);
        swaps_in_row(prev, cols, rows, r - 1, cols)
    }
}

proof fn lemma_swaps_ok_row(len: nat, cols: int, rows: int, r: int)
    requires
        transpose_swaps_ok(len, cols, rows),
        0 <= r < rows,
    ensures
        row_swaps_ok(len, cols, rows, r),
{
    assert forall|c: int| r < c < cols implies #[trigger] row_swap_ok(len, cols, rows, r, c) by {
        assert(row_swap_ok(len, cols, rows, r, c));
    }
}

proof fn lemma_row_swap_ok(len: nat, cols: int, rows: int, r: int, c: int)
    requires
        row_swaps_ok(len, cols, rows, r),
        r < c < cols,
    ensures
        row_swap_ok(len, cols, rows, r, c),
{
}

proof fn lemma_swaps_len<T>(e: Seq<T>, cols: int, rows: int, r: int, c: int)
    requires
        row_swaps_ok(e.len(), cols, rows, r),
        0 <= r,
        0 <= rows,
        c <= cols,
    ensures
        swaps_in_row(e, cols, rows, r, c).len() == e.len(),
    decreases c - r,
{
    if c > r + 1 {
        lemma_mul_nonnegative(r, cols);
        lemma_mul_nonnegative(c - 1, rows);
        lemma_swaps_len(e, cols, rows, r, c - 1);
        assert(row_swap_ok(e.len(), cols, rows, r, c - 1));
    }
}

proof fn lemma_transpose_swaps_len<T>(e: Seq<T>, cols: int, rows: int, r: int)
    requires
        transpose_swaps_ok(e.len(), cols, rows),
        0 <= r <= rows,
    ensures
        transpose_swaps(e, cols, rows, r).len() == e.len(),
    decreases r,
{
    if r > 0 {
        lemma_transpose_swaps_len(e, cols, rows, r - 1);
        lemma_swaps_ok_row(e.len(), cols, rows, r - 1);
        lemma_swaps_len(transpose_swaps(e, cols, rows, r - 1), cols, rows, r - 1, cols);
    }
}

proof fn lemma_transposed_props<T>(e: Seq<T>, cols: int, rows: int)
    requires
        0 <= cols,
        0 <= rows,
        cols * rows <= e.len(),
    ensures
        transposed(e, cols, rows).len() == cols * rows,
        forall|c: int, r: int|
            0 <= c < cols && 0 <= r < rows ==> #[trigger] transposed(e, cols, rows)[c * rows + r]
                == e[r * cols + c],
{
    lemma_mul_nonnegative(cols, rows);
    assert forall|c: int, r: int| 0 <= c < cols && 0 <= r < rows implies #[trigger] transposed(e, cols, rows)[c * rows + r]
        == e[r * cols + c] by {
        lemma_index_split(c, r, rows, cols);
    }
}

/// Positions of an `n` by `n` grid are determined by their row and column.
proof fn lemma_grid_pos_injective(n: int, x: int, y: int, x2: int, y2: int)
    requires
        0 <= x < n,
        0 <= y < n,
        0 <= x2 < n,
        0 <= y2 < n,
        x * n + y == x2 * n + y2,
    ensures
        x == x2,
        y == y2,
{
    lemma_fundamental_div_mod_converse(x * n + y, n, x, y);
    lemma_fundamental_div_mod_converse(x2 * n + y2, n, x2, y2);
}

/// The swaps of row `r` for the columns `r + 1 .. c` on an `n` by `n` grid
/// exchange the entries at (row `r`, column `b`) and (row `b`, column `r`)
/// for those columns `b`, and leave the others.
proof fn lemma_swaps_in_row_square<T>(e: Seq<T>, n: int, r: int, c: int)
    requires
        e.len() == n * n,
        0 <= r < n,
        r + 1 <= c <= n,
    ensures
        swaps_in_row(e, n, n, r, c).len() == e.len(),
        forall|x: int, y: int|
            0 <= x < n && 0 <= y < n ==> #[trigger] swaps_in_row(e, n, n, r, c)[x * n + y] == if x != y && ((x == r
                && r < y < c) || (y == r && r < x < c)) {
                e[y * n + x]
            } else {
                e[x * n + y]
            },
    decreases c - r,
{
    if c > r + 1 {
        lemma_swaps_in_row_square(e, n, r, c - 1);
        let prev = swaps_in_row(e, n, n, r, c - 1);
        let b = c - 1;
        let i = r * n + b;
        let j = b * n + r;
        lemma_index_split(r, b, n, n);
        lemma_index_split(b, r, n, n);
        assert(prev[i] == e[i]);
        assert(prev[j] == e[j]);
        assert forall|x: int, y: int| 0 <= x < n && 0 <= y < n implies #[trigger] swaps_in_row(e, n, n, r, c)[x * n + y]
            == if x != y && ((x == r && r < y < c) || (y == r && r < x < c)) {
            e[y * n + x]
        } else {
            e[x * n + y]
        } by {
            lemma_index_split(x, y, n, n);
            if x * n + y == i {
                lemma_grid_pos_injective(n, x, y, r, b);
            } else if x * n + y == j {
                lemma_grid_pos_injective(n, x, y, b, r);
            } else {
                if x == r && y == b {
                    assert(x * n + y == i);
                }
                if x == b && y == r {
                    assert(x * n + y == j);
                }
            }
        }
    }
}

/// After the swaps of the first `r` rows of an `n` by `n` grid, the entries
/// off the diagonal with row or column below `r` are exchanged with their
/// mirror images, and the others are as they were.
proof fn lemma_transpose_swaps_square<T>(e: Seq<T>, n: int, r: int)
    requires
        e.len() == n * n,
        0 <= r <= n,
    ensures
        transpose_swaps(e, n, n, r).len() == e.len(),
        forall|x: int, y: int|
            0 <= x < n && 0 <= y < n ==> #[trigger] transpose_swaps(e, n, n, r)[x * n + y] == if x != y && (x < r
                || y < r) {
                e[y * n + x]
            } else {
                e[x * n + y]
            },
    decreases r,
{
    if r > 0 {
        lemma_transpose_swaps_square(e, n, r - 1);
        let prev = transpose_swaps(e, n, n, r - 1);
        lemma_swaps_in_row_square(prev, n, r - 1, n);
        assert forall|x: int, y: int| 0 <= x < n && 0 <= y < n implies #[trigger] transpose_swaps(e, n, n, r)[x * n + y]
            == if x != y && (x < r || y < r) {
            e[y * n + x]
        } else {
            e[x * n + y]
        } by {
            assert(prev[x * n + y] == if x != y && (x < r - 1 || y < r - 1) {
                e[y * n + x]
            } else {
                e[x * n + y]
            });
            assert(prev[y * n + x] == if x != y && (x < r - 1 || y < r - 1) {
                e[x * n + y]
            } else {
                e[y * n + x]
            });
        }
    }
}

/// On a square matrix that holds exactly its entries, `transpose_inplace`
/// computes the transpose.
pub proof fn law_transpose_inplace_square<T>(e: Seq<T>, n: int)
    requires
        0 <= n,
        e.len() == n * n,
    ensures
        transpose_swaps(e, n, n, n) == transposed(e, n, n),
{
    lemma_transpose_swaps_square(e, n, n);
    lemma_transposed_props(e, n, n);
    let a = transpose_swaps(e, n, n, n);
    let t = transposed(e, n, n);
    assert forall|p: int| 0 <= p < e.len() implies #[trigger] a[p] == t[p] by {
        if n == 0 {
            assert(n * n == 0);
        }
        lemma_fundamental_div_mod(p, n);
        lemma_mod_bound(p, n);
        lemma_div_pos_is_pos(p, n);
        let x = p / n;
        let y = p % n;
        lemma_mul_is_commutative(n, x);
        if x >= n {
            lemma_mul_inequality(n, x, n);
        }
        assert(a[x * n + y] == e[y * n + x]);
        assert(t[x * n + y] == e[y * n + x]);
    }
    assert(a =~= t);
}

/// Transposing twice gives back the buffer of a matrix that holds exactly
/// `cols * rows` entries.
pub proof fn law_transpose_involutive<T>(e: Seq<T>, cols: int, rows: int)
    requires
        0 <= cols,
        0 <= rows,
        e.len() == cols * rows,
    ensures
        transposed(transposed(e, cols, rows), rows, cols) == e,
{
    let t = transposed(e, cols, rows);
    lemma_transposed_props(e, cols, rows);
    lemma_mul_is_commutative(cols, rows);
    lemma_transposed_props(t, rows, cols);
    let t2 = transposed(t, rows, cols);
    assert forall|k: int| 0 <= k < e.len() implies #[trigger] t2[k] == e[k] by {
        if cols > 0 {
            lemma_fundamental_div_mod(k, cols);
            lemma_mod_bound(k, cols);
            lemma_div_pos_is_pos(k, cols);
            let r = k / cols;
            let c = k % cols;
            lemma_mul_is_commutative(cols, r);
            if r >= rows {
                lemma_mul_inequality(rows, r, cols);
            }
            assert(t2[r * cols + c] == t[c * rows + r]);
        }
    }
    assert(t2 =~= e);
}

/// For `c < cols`, `r < rows`: `(c * rows + r) % rows == r`,
/// `(c * rows + r) / rows == c`, and `c * rows + r < cols * rows`.
pub proof fn lemma_index_split(c: int, r: int, rows: int, cols: int)
    requires
        0 <= c < cols,
        0 <= r < rows,
    ensures
        (c * rows + r) % rows == r,
        (c * rows + r) / rows == c,
        0 <= c * rows + r < cols * rows,
        0 <= r * cols + c < rows * cols,
{
    vstd::arithmetic::div_mod::lemma_fundamental_div_mod_converse(c * rows + r, rows, c, r);
    lemma_mul_inequality(c + 1, cols, rows);
    lemma_mul_inequality(r + 1, rows, cols);
    lemma_mul_is_distributive_add_other_way(rows, c, 1);
    lemma_mul_is_distributive_add_other_way(cols, r, 1);
    lemma_mul_nonnegative(c, rows);
    lemma_mul_nonnegative(r, cols);
}

proof fn lemma_transpose_step<T>(e: Seq<T>, cols: int, rows: int, col: int, row: int)
    requires
        transpose_ok(e.len(), cols, rows),
        0 <= col < cols,
        0 <= row < rows,
    ensures
        row * cols + col < e.len(),
        row * cols + col <= u8::MAX,
        col * rows + row < cols * rows,
        transposed(e, cols, rows).take(col * rows + row).push(e[row * cols + col])
            == transposed(e, cols, rows).take(col * rows + row + 1),
{
    lemma_index_split(col, row, rows, cols);
    lemma_mul_is_commutative(rows, cols);
    let t = transposed(e, cols, rows);
    assert(t[col * rows + row] == e[row * cols + col]);
    assert(t.take(col * rows + row).push(e[row * cols + col]) =~= t.take(col * rows + row + 1));
}

/* # boolean matrices as relations */

/// A boolean matrix whose buffer holds exactly its `ncols * nrows` entries.
pub open spec fn bool_well_shaped(m: Matrix<bool>) -> bool {
    m.entries().len() == m.ncols() * m.nrows()
}

/// Whether the relation of `m` relates `col` to `row`: the entry in column
/// `col` and row `row`.
pub open spec fn related(m: Matrix<bool>, col: int, row: int) -> bool {
    m.entries()[row * m.ncols() + col]
}

/// A disjunction of conjunctions holds when one of its terms does.
proof fn lemma_dot_bool(a: Seq<bool>, b: Seq<bool>, n: int)
    requires
        1 <= n,
    ensures
        dot(a, b, n) <==> exists|k: int| 0 <= k < n && a[k] && b[k],
    decreases n,
{
    if n > 1 {
        lemma_dot_bool(a, b, n - 1);
        if dot(a, b, n - 1) {
            let k = choose|k: int| 0 <= k < n - 1 && a[k] && b[k];
            assert(0 <= k < n && a[k] && b[k]);
        }
    }
}

/// An entry of the composite of two composable boolean matrices: `s`
/// relates `col` to some `k` that `o` relates to `row`.
proof fn lemma_composed_bool(s: Matrix<bool>, o: Matrix<bool>, col: int, row: int)
    requires
        bool_well_shaped(s),
        bool_well_shaped(o),
        s.nrows() == o.ncols(),
        s.nrows() >= 1,
        0 <= col < s.ncols(),
        0 <= row < o.nrows(),
    ensures
        0 <= row * s.ncols() + col < composed(s, o).len(),
        zip_len(o.row_seq(row), s.col_seq(col)) == s.nrows(),
        composed(s, o)[row * s.ncols() + col] <==> exists|k: int| 0 <= k < s.nrows() && related(s, col, k) && related(o, k, row),
{
    let cols = s.ncols() as int;
    let n = s.nrows() as int;
    lemma_index_split(row, col, cols, o.nrows() as int);
    lemma_mul_is_commutative(cols, o.nrows() as int);
    let x = o.row_seq(row);
    let y = s.col_seq(col);
    lemma_index_split(row, 0, n, o.nrows() as int);
    lemma_mul_is_distributive_add_other_way(n, row, 1);
    lemma_mul_inequality(row + 1, o.nrows() as int, n);
    lemma_mul_is_commutative(n, o.nrows() as int);
    assert(x.len() == n);
    lemma_strided_props(s.entries(), col, cols, n);
    if y.len() < n {
        lemma_mul_inequality(y.len() as int, n - 1, cols);
        lemma_mul_is_distributive_add_other_way(cols, n - 1, 1);
        lemma_mul_is_commutative(cols, n);
        assert(false);
    }
    assert(zip_len(x, y) == n);
    lemma_dot_bool(x, y, n);
    assert forall|k: int| 0 <= k < n implies (x[k] && y[k]) == (related(s, col, k) && related(o, k, row)) by {
        assert(x[k] == o.entries()[row * n + k]);
        assert(y[k] == s.entries()[col + k * cols]);
        lemma_mul_is_commutative(k, cols);
    }
    if composed(s, o)[row * cols + col] {
        let k = choose|k: int| 0 <= k < n && x[k] && y[k];
        assert(related(s, col, k) && related(o, k, row));
    }
    if exists|k: int| 0 <= k < n && related(s, col, k) && related(o, k, row) {
        let k = choose|k: int| 0 <= k < n && related(s, col, k) && related(o, k, row);
        assert(x[k] && y[k]);
    }
}

/// Composing relations is associative: for composable boolean matrices
/// `a`, `b`, `c`, where `ab` and `bc` are the composites that
/// `compose_unchecked_bool` gives, composing `ab` with `c` gives what
/// composing `a` with `bc` gives.
pub proof fn law_compose_bool_associative(a: Matrix<bool>, b: Matrix<bool>, c: Matrix<bool>, ab: Matrix<bool>, bc: Matrix<bool>)
    requires
        bool_well_shaped(a),
        bool_well_shaped(b),
        bool_well_shaped(c),
        a.nrows() == b.ncols(),
        b.nrows() == c.ncols(),
        a.nrows() >= 1,
        b.nrows() >= 1,
        ab.ncols() == a.ncols(),
        ab.nrows() == b.nrows(),
        ab.entries() == composed(a, b),
        bc.ncols() == b.ncols(),
        bc.nrows() == c.nrows(),
        bc.entries() == composed(b, c),
    ensures
        composed(ab, c) == composed(a, bc),
{
    lemma_mul_is_commutative(a.ncols() as int, b.nrows() as int);
    lemma_mul_is_commutative(b.ncols() as int, c.nrows() as int);
    assert(bool_well_shaped(ab));
    assert(bool_well_shaped(bc));
    let lhs = composed(ab, c);
    let rhs = composed(a, bc);
    assert(lhs.len() == rhs.len());
    assert forall|i: int| 0 <= i < lhs.len() implies lhs[i] == rhs[i] by {
        let cols = a.ncols() as int;
        let row = i / cols;
        let col = i % cols;
        lemma_mul_is_commutative(cols, c.nrows() as int);
        vstd::arithmetic::div_mod::lemma_fundamental_div_mod(i, cols);
        vstd::arithmetic::div_mod::lemma_div_pos_is_pos(i, cols);
        vstd::arithmetic::div_mod::lemma_div_is_ordered_by_denominator(i, cols, cols);
        if row >= c.nrows() {
            lemma_mul_inequality(c.nrows() as int, row, cols);
            lemma_mul_is_commutative(row, cols);
            assert(false);
        }
        assert(i == row * cols + col) by {
            lemma_mul_is_commutative(row, cols);
        }
        lemma_composed_bool(ab, c, col, row);
        lemma_composed_bool(a, bc, col, row);
        if lhs[i] {
            let m = choose|m: int| 0 <= m < b.nrows() && related(ab, col, m) && related(c, m, row);
            lemma_composed_bool(a, b, col, m);
            let k = choose|k: int| 0 <= k < a.nrows() && related(a, col, k) && related(b, k, m);
            lemma_composed_bool(b, c, k, row);
            assert(related(bc, k, row));
        }
        if rhs[i] {
            let k = choose|k: int| 0 <= k < a.nrows() && related(a, col, k) && related(bc, k, row);
            lemma_composed_bool(b, c, k, row);
            let m = choose|m: int| 0 <= m < b.nrows() && related(b, k, m) && related(c, m, row);
            lemma_composed_bool(a, b, col, m);
            assert(related(ab, col, m));
        }
    }
    assert(lhs =~= rhs);
}

/// The diagonal relation is a unit of composition: composing it on either
/// side of a boolean matrix of matching shape gives that matrix back.
pub proof fn law_compose_bool_identity(id: Matrix<bool>, m: Matrix<bool>)
    requires
        bool_well_shaped(id),
        bool_well_shaped(m),
        id.ncols() == id.nrows(),
        id.nrows() >= 1,
        forall|col: int, row: int| 0 <= col < id.ncols() && 0 <= row < id.nrows() ==> (#[trigger] related(id, col, row) <==> col == row),
    ensures
        m.ncols() == id.nrows() ==> composed(id, m) == m.entries(),
        m.nrows() == id.ncols() ==> composed(m, id) == m.entries(),
{
    let n = id.nrows() as int;
    if m.ncols() == id.nrows() {
        let lhs = composed(id, m);
        lemma_mul_is_commutative(n, m.nrows() as int);
        assert forall|i: int| 0 <= i < lhs.len() implies lhs[i] == m.entries()[i] by {
            let row = i / n;
            let col = i % n;
            vstd::arithmetic::div_mod::lemma_fundamental_div_mod(i, n);
            vstd::arithmetic::div_mod::lemma_div_pos_is_pos(i, n);
            if row >= m.nrows() {
                lemma_mul_inequality(m.nrows() as int, row, n);
                lemma_mul_is_commutative(row, n);
                assert(false);
            }
            assert(i == row * n + col) by {
                lemma_mul_is_commutative(row, n);
            }
            lemma_composed_bool(id, m, col, row);
            if m.entries()[i] {
                assert(related(id, col, col) && related(m, col, row));
            }
        }
        assert(lhs =~= m.entries());
    }
    if m.nrows() == id.ncols() {
        let cols = m.ncols() as int;
        let rhs = composed(m, id);
        lemma_mul_is_commutative(cols, n);
        assert forall|i: int| 0 <= i < rhs.len() implies rhs[i] == m.entries()[i] by {
            if cols > 0 {
                let row = i / cols;
                let col = i % cols;
                vstd::arithmetic::div_mod::lemma_fundamental_div_mod(i, cols);
                vstd::arithmetic::div_mod::lemma_div_pos_is_pos(i, cols);
                if row >= n {
                    lemma_mul_inequality(n, row, cols);
                    lemma_mul_is_commutative(row, cols);
                    assert(false);
                }
                assert(i == row * cols + col) by {
                    lemma_mul_is_commutative(row, cols);
                }
                lemma_composed_bool(m, id, col, row);
                if m.entries()[i] {
                    assert(related(m, col, row) && related(id, row, row));
                }
            }
        }
        assert(rhs =~= m.entries());
    }
}

/// A disjunction of conjunctions of booleans is always defined.
proof fn lemma_dot_ok_bool(a: Seq<bool>, b: Seq<bool>, n: int)
    ensures
        dot_ok(a, b, n),
    decreases n,
{
    if n > 1 {
        lemma_dot_ok_bool(a, b, n - 1);
    }
}

/// Well-shaped boolean matrices compose where the rows of the first are the
/// columns of the second, there is at least one of them, and the row offsets
/// of the second fit in `u8`.
pub proof fn lemma_bool_compose_ok(s: Matrix<bool>, o: Matrix<bool>)
    requires
        bool_well_shaped(s),
        bool_well_shaped(o),
        s.nrows() == o.ncols(),
        s.nrows() >= 1,
        o.nrows() == 0 || (o.nrows() - 1) * o.ncols() <= u8::MAX,
    ensures
        compose_ok(s, o),
{
    assert forall|row: int, col: int| 0 <= row < o.nrows() && 0 <= col < s.ncols() implies {
        &&& zip_len(#[trigger] o.row_seq(row), #[trigger] s.col_seq(col)) >= 1
        &&& dot_ok(o.row_seq(row), s.col_seq(col), zip_len(o.row_seq(row), s.col_seq(col)))
    } by {
        lemma_composed_bool(s, o, col, row);
        lemma_dot_ok_bool(o.row_seq(row), s.col_seq(col), zip_len(o.row_seq(row), s.col_seq(col)));
    }
}

/// Whether the boolean matrix with buffer `a` and `cols` columns relates
/// `col` to `row`.
pub open spec fn rel_at(a: Seq<bool>, cols: int, col: int, row: int) -> bool {
    a[row * cols + col]
}

/// Whether the composite of `a` (with `cols` columns and `mid` rows) and
/// then `b` (with `mid` columns) relates `col` to `row`: some `m` that `a`
/// relates to `col` is related to `row` by `b`.
pub open spec fn product_entry(a: Seq<bool>, b: Seq<bool>, cols: int, mid: int, col: int, row: int) -> bool {
    exists|m: int| 0 <= m < mid && #[trigger] rel_at(a, cols, col, m) && rel_at(b, mid, m, row)
}

/// The buffer of the composite of `a` (with `cols` columns and `mid` rows)
/// and then `b` (with `mid` columns and `rows` rows).
pub open spec fn bool_product(a: Seq<bool>, b: Seq<bool>, cols: int, mid: int, rows: int) -> Seq<bool> {
    Seq::new((cols * rows) as nat, |k: int| product_entry(a, b, cols, mid, k % cols, k / cols))
}

/// What `compose_unchecked_bool` computes on well-shaped matrices whose shapes
/// meet: the relational composite of their buffers.
pub proof fn lemma_composed_is_product(s: Matrix<bool>, o: Matrix<bool>)
    requires
        bool_well_shaped(s),
        bool_well_shaped(o),
        s.nrows() == o.ncols(),
        s.nrows() >= 1,
    ensures
        composed(s, o) == bool_product(s.entries(), o.entries(), s.ncols() as int, s.nrows() as int, o.nrows() as int),
{
    let cols = s.ncols() as int;
    let rows = o.nrows() as int;
    let lhs = composed(s, o);
    let rhs = bool_product(s.entries(), o.entries(), cols, s.nrows() as int, rows);
    lemma_mul_is_commutative(cols, rows);
    assert forall|i: int| 0 <= i < lhs.len() implies lhs[i] == rhs[i] by {
        if cols == 0 {
            assert(cols * rows == 0);
            assert(false);
        }
        let row = i / cols;
        let col = i % cols;
        vstd::arithmetic::div_mod::lemma_fundamental_div_mod(i, cols);
        vstd::arithmetic::div_mod::lemma_div_pos_is_pos(i, cols);
        if row >= rows {
            lemma_mul_inequality(rows, row, cols);
            lemma_mul_is_commutative(row, cols);
            assert(false);
        }
        assert(i == row * cols + col) by {
            lemma_mul_is_commutative(row, cols);
        }
        lemma_composed_bool(s, o, col, row);
        if lhs[i] {
            let k = choose|k: int| 0 <= k < s.nrows() && related(s, col, k) && related(o, k, row);
            assert(rel_at(s.entries(), cols, col, k) && rel_at(o.entries(), s.nrows() as int, k, row));
        }
        if rhs[i] {
            let k = choose|k: int| 0 <= k < s.nrows() && #[trigger] rel_at(s.entries(), cols, col, k) && rel_at(o.entries(), s.nrows() as int, k, row);
            assert(related(s, col, k) && related(o, k, row));
        }
    }
    assert(lhs =~= rhs);
}

/// An entry of a composite, by column and row.
pub proof fn lemma_product_at(a: Seq<bool>, b: Seq<bool>, cols: int, mid: int, rows: int, col: int, row: int)
    requires
        0 <= col < cols,
        0 <= row < rows,
    ensures
        0 <= row * cols + col < bool_product(a, b, cols, mid, rows).len(),
        rel_at(bool_product(a, b, cols, mid, rows), cols, col, row) == product_entry(a, b, cols, mid, col, row),
{
    assert(row * cols + col < cols * rows) by (nonlinear_arith)
        requires
            0 <= col < cols,
            0 <= row < rows,
    ;
    assert(row * cols + col >= 0) by (nonlinear_arith)
        requires
            0 <= col < cols,
            0 <= row,
    ;
    lemma_fundamental_div_mod_converse(row * cols + col, cols, row, col);
}

/// Two buffers of `cols * rows` entries agree where they relate the same
/// pairs.
pub proof fn lemma_rel_ext(x: Seq<bool>, y: Seq<bool>, cols: int, rows: int)
    requires
        cols >= 1,
        rows >= 0,
        x.len() == cols * rows,
        y.len() == cols * rows,
        forall|col: int, row: int| 0 <= col < cols && 0 <= row < rows ==> #[trigger] rel_at(x, cols, col, row) == rel_at(y, cols, col, row),
    ensures
        x == y,
{
    assert forall|k: int| 0 <= k < x.len() implies x[k] == y[k] by {
        let row = k / cols;
        let col = k % cols;
        lemma_fundamental_div_mod(k, cols);
        lemma_div_pos_is_pos(k, cols);
        if row >= rows {
            lemma_mul_inequality(rows, row, cols);
            lemma_mul_is_commutative(row, cols);
            lemma_mul_is_commutative(rows, cols);
            assert(false);
        }
        assert(k == row * cols + col) by {
            lemma_mul_is_commutative(row, cols);
        }
        assert(rel_at(x, cols, col, row) == rel_at(y, cols, col, row));
    }
    assert(x =~= y);
}

/// Composing relations is associative, on buffers: `x` (with `a` columns and
/// `b` rows), then `y` (`b` by `c`), then `z` (`c` by `d`).
pub proof fn lemma_product_assoc(x: Seq<bool>, y: Seq<bool>, z: Seq<bool>, a: int, b: int, c: int, d: int)
    requires
        a >= 1,
        b >= 1,
        c >= 1,
        d >= 0,
    ensures
        bool_product(bool_product(x, y, a, b, c), z, a, c, d) == bool_product(x, bool_product(y, z, b, c, d), a, b, d),
{
    let xy = bool_product(x, y, a, b, c);
    let yz = bool_product(y, z, b, c, d);
    let lhs = bool_product(xy, z, a, c, d);
    let rhs = bool_product(x, yz, a, b, d);
    assert(lhs.len() == a * d);
    assert(rhs.len() == a * d);
    assert forall|col: int, row: int| 0 <= col < a && 0 <= row < d implies #[trigger] rel_at(lhs, a, col, row) == rel_at(rhs, a, col, row) by {
        lemma_product_at(xy, z, a, c, d, col, row);
        lemma_product_at(x, yz, a, b, d, col, row);
        if rel_at(lhs, a, col, row) {
            let m2 = choose|m2: int| 0 <= m2 < c && #[trigger] rel_at(xy, a, col, m2) && rel_at(z, c, m2, row);
            lemma_product_at(x, y, a, b, c, col, m2);
            let m1 = choose|m1: int| 0 <= m1 < b && #[trigger] rel_at(x, a, col, m1) && rel_at(y, b, m1, m2);
            lemma_product_at(y, z, b, c, d, m1, row);
            assert(rel_at(yz, b, m1, row));
            assert(rel_at(x, a, col, m1) && rel_at(yz, b, m1, row));
        }
        if rel_at(rhs, a, col, row) {
            let m1 = choose|m1: int| 0 <= m1 < b && #[trigger] rel_at(x, a, col, m1) && rel_at(yz, b, m1, row);
            lemma_product_at(y, z, b, c, d, m1, row);
            let m2 = choose|m2: int| 0 <= m2 < c && #[trigger] rel_at(y, b, m1, m2) && rel_at(z, c, m2, row);
            lemma_product_at(x, y, a, b, c, col, m2);
            assert(rel_at(xy, a, col, m2));
            assert(rel_at(xy, a, col, m2) && rel_at(z, c, m2, row));
        }
    }
    lemma_rel_ext(lhs, rhs, a, d);
}

/// The buffer of the identity relation on `n` elements: the diagonal.
pub open spec fn diagonal(n: int) -> Seq<bool> {
    Seq::new((n * n) as nat, |k: int| k / n == k % n)
}

/// The diagonal is a unit of composition, on buffers: composing it before a
/// relation of `n` columns, or after one of `n` rows, changes nothing.
pub proof fn lemma_product_identity(x: Seq<bool>, n: int, other: int)
    requires
        n >= 1,
        other >= 1,
    ensures
        x.len() == n * other ==> bool_product(diagonal(n), x, n, n, other) == x,
        x.len() == other * n ==> bool_product(x, diagonal(n), other, n, n) == x,
{
    let dg = diagonal(n);
    assert forall|col: int, row: int| 0 <= col < n && 0 <= row < n implies #[trigger] rel_at(dg, n, col, row) == (col == row) by {
        assert(row * n + col < n * n) by (nonlinear_arith)
            requires
                0 <= col < n,
                0 <= row < n,
        ;
        assert(row * n + col >= 0) by (nonlinear_arith)
            requires
                0 <= col < n,
                0 <= row,
        ;
        lemma_fundamental_div_mod_converse(row * n + col, n, row, col);
    }
    if x.len() == n * other {
        let p = bool_product(dg, x, n, n, other);
        assert forall|col: int, row: int| 0 <= col < n && 0 <= row < other implies #[trigger] rel_at(p, n, col, row) == rel_at(x, n, col, row) by {
            lemma_product_at(dg, x, n, n, other, col, row);
            if rel_at(x, n, col, row) {
                assert(rel_at(dg, n, col, col) && rel_at(x, n, col, row));
            }
        }
        lemma_rel_ext(p, x, n, other);
    }
    if x.len() == other * n {
        let p = bool_product(x, dg, other, n, n);
        assert forall|col: int, row: int| 0 <= col < other && 0 <= row < n implies #[trigger] rel_at(p, other, col, row) == rel_at(x, other, col, row) by {
            lemma_product_at(x, dg, other, n, n, col, row);
            if rel_at(x, other, col, row) {
                assert(rel_at(x, other, col, row) && rel_at(dg, n, row, row));
            }
        }
        lemma_mul_is_commutative(other, n);
        lemma_rel_ext(p, x, other, n);
    }
}

} // verus!
