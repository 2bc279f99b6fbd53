//! Relations between modules in canonical form, as boolean matrices over
//! their elements.
use vstd::prelude::*;
use std::sync::Arc;
use crate::rmodule::canon::CanonModule;
use crate::rmodule::ring::Fin;
use crate::util::category_of_relations::{HelperData, coeff_reps, product_of, lemma_product_monotone, lemma_product_positive};
use crate::util::ident::share_arc;
use crate::category::{size, small, relates};
use crate::util::matrix::{
    Matrix, bool_product, diagonal, bool_well_shaped, compose_ok, composed, zip_len, lemma_bool_compose_ok, lemma_composed_is_product,
    lemma_product_assoc, lemma_product_identity,
};
use crate::util::order::Ranked;
use crate::Int;

verus! {

/// A relation from `source` to `target`: the entry in column `s` and row `t`
/// of the matrix holds when the element of index `s` of the source is
/// related to the element of index `t` of the target.
#[derive(Clone, Debug, PartialEq, Eq)]
pub struct Relation<R: Ranked> {
    pub source: Arc<CanonModule<R>>,
    pub target: Arc<CanonModule<R>>,
    pub matrix: Matrix<bool>,
}

/// The number of places that an element with entries `xs` and the
/// coefficients `tcs` have in common.
pub open spec fn common_len<const N: u16>(xs: Seq<Fin<N>>, tcs: Seq<int>) -> int {
    if xs.len() < tcs.len() {
        xs.len() as int
    } else {
        tcs.len() as int
    }
}

/// The coordinate read from an entry `x` of an element in a cyclic summand
/// with coefficient `tc`: the residue of `x`, taken again modulo `tc`
/// unless `tc` is one.
pub open spec fn coordinate<const N: u16>(x: Fin<N>, tc: int) -> int {
    let v = x.raw() % (N as int);
    if tc != 1 {
        v % tc
    } else {
        v
    }
}

/// The sum of the first `k` coordinates of `xs`, each times the product of
/// the coefficients before it.
pub open spec fn mixed_index<const N: u16>(xs: Seq<Fin<N>>, tcs: Seq<int>, k: int) -> int
    decreases k,
{
    if k <= 0 {
        0
    } else {
        mixed_index(xs, tcs, k - 1) + coordinate(xs[k - 1], tcs[k - 1]) * product_of(tcs.take(k - 1))
    }
}

/// The index of an element with entries `xs` in a module with coefficients
/// `tcs`: its coordinates read as the digits of a number in the mixed radix
/// of the coefficients, the first digit the least significant, as far as
/// both sequences reach.
pub open spec fn element_index<const N: u16>(xs: Seq<Fin<N>>, tcs: Seq<int>) -> int {
    mixed_index(xs, tcs, common_len(xs, tcs))
}

/// Every coordinate of `xs` is a digit of the mixed radix of `tcs`.
pub open spec fn coordinates_in_range<const N: u16>(xs: Seq<Fin<N>>, tcs: Seq<int>) -> bool {
    forall|i: int| 0 <= i < common_len(xs, tcs) ==> #[trigger] coordinate(xs[i], tcs[i]) < tcs[i]
}

/// The position in the matrix of a relation from `source` to `target` of
/// the pair of elements `(s, t)`.
pub open spec fn pair_index<const N: u16>(
    s: Seq<Fin<N>>,
    t: Seq<Fin<N>>,
    source: CanonModule<Fin<N>>,
    target: CanonModule<Fin<N>>,
) -> int {
    element_index(s, coeff_reps(source)) + product_of(coeff_reps(source)) * element_index(t, coeff_reps(target))
}

impl<const N: u16> Relation<Fin<N>> {
    /// The relation from `source` to `target` that holds of the given pairs
    /// of elements and of no others: the pair `(s, t)` sets the entry in the
    /// column of the index of `s` and the row of the index of `t`, the
    /// indices read in the mixed radix of the torsion coefficients.
    pub fn from_pairs(
        source: Arc<CanonModule<Fin<N>>>,
        target: Arc<CanonModule<Fin<N>>>,
        pairs: &Vec<(Vec<Fin<N>>, Vec<Fin<N>>)>,
    ) -> (r: Self)
        requires
            product_of(coeff_reps(*source)) * product_of(coeff_reps(*target)) <= Int::MAX,
            forall|j: int|
                0 <= j < pairs@.len() ==> coordinates_in_range((#[trigger] pairs@[j]).0@, coeff_reps(*source))
                    && coordinates_in_range(pairs@[j].1@, coeff_reps(*target)),
        ensures
            *r.source == *source,
            *r.target == *target,
            r.matrix.ncols() == product_of(coeff_reps(*source)) as u8,
            r.matrix.nrows() == product_of(coeff_reps(*target)) as u8,
            r.matrix.entries().len() == product_of(coeff_reps(*source)) * product_of(coeff_reps(*target)),
            forall|k: int|
                0 <= k < r.matrix.entries().len() ==> (#[trigger] r.matrix.entries()[k] <==> exists|j: int|
                    0 <= j < pairs@.len() && pair_index(pairs@[j].0@, pairs@[j].1@, *source, *target) == k),
    {
        let source_module: &CanonModule<Fin<N>> = &source;
        let target_module: &CanonModule<Fin<N>> = &target;
        let source_tc = HelperData::reps(source_module);
        let target_tc = HelperData::reps(target_module);
        let ghost stc = coeff_reps(*source_module);
        let ghost ttc = coeff_reps(*target_module);
        proof {
            lemma_positive_seq(source_tc@, stc);
            lemma_positive_seq(target_tc@, ttc);
            lemma_product_positive(stc);
            lemma_product_positive(ttc);
            let ps = product_of(stc);
            let pt = product_of(ttc);
            assert(ps <= ps * pt && pt <= ps * pt) by (nonlinear_arith)
                requires
                    ps >= 1,
                    pt >= 1,
            ;
        }
        let source_index_shift = index_shifts(&source_tc);
        let target_index_shift = index_shifts(&target_tc);
        let cols = product_usize(&source_tc);
        let rows = product_usize(&target_tc);
        let ghost cells = product_of(stc) * product_of(ttc);
        assert(rows * cols == cells) by (nonlinear_arith)
            requires
                rows == product_of(ttc),
                cols == product_of(stc),
                cells == product_of(stc) * product_of(ttc),
        ;
        let mut buffer: Vec<bool> = Vec::new();
        let mut k: Int = 0;
        while k < rows * cols
            invariant
                rows * cols == cells,
                cells <= Int::MAX,
                k <= cells,
                buffer@.len() == k,
                forall|i: int| 0 <= i < k ==> !(#[trigger] buffer@[i]),
            decreases cells - k,
        {
            buffer.push(false);
            k += 1;
        }
        let mut p: usize = 0;
        while p < pairs.len()
            invariant
                source_tc@.map_values(|x: Int| x as int) == stc,
                target_tc@.map_values(|x: Int| x as int) == ttc,
                forall|i: int| 0 <= i < source_tc@.len() ==> source_tc@[i] >= 1,
                forall|i: int| 0 <= i < target_tc@.len() ==> target_tc@[i] >= 1,
                stc == coeff_reps(*source),
                ttc == coeff_reps(*target),
                forall|i: int| 0 <= i < stc.len() ==> stc[i] >= 1,
                forall|i: int| 0 <= i < ttc.len() ==> ttc[i] >= 1,
                source_index_shift@.len() == stc.len(),
                target_index_shift@.len() == ttc.len(),
                forall|i: int| 0 <= i < stc.len() ==> #[trigger] source_index_shift@[i] as int == product_of(stc.take(i)),
                forall|i: int| 0 <= i < ttc.len() ==> #[trigger] target_index_shift@[i] as int == product_of(ttc.take(i)),
                cols == product_of(stc),
                rows == product_of(ttc),
                cells == product_of(stc) * product_of(ttc),
                cells <= Int::MAX,
                forall|j: int|
                    0 <= j < pairs@.len() ==> coordinates_in_range((#[trigger] pairs@[j]).0@, stc)
                        && coordinates_in_range(pairs@[j].1@, ttc),
                p <= pairs@.len(),
                buffer@.len() == cells,
                forall|i: int|
                    0 <= i < cells ==> (#[trigger] buffer@[i] <==> exists|j: int|
                        0 <= j < p && pair_index(pairs@[j].0@, pairs@[j].1@, *source, *target) == i),
            decreases pairs@.len() - p,
        {
            proof {
                assert(coordinates_in_range(pairs@[p as int].0@, stc));
                assert(coordinates_in_range(pairs@[p as int].1@, ttc));
            }
            let source_index = index_of(&pairs[p].0, &source_tc, &source_index_shift);
            let target_index = index_of(&pairs[p].1, &target_tc, &target_index_shift);
            proof {
                let si = source_index as int;
                let ti = target_index as int;
                let c = cols as int;
                let r = rows as int;
                assert(si + c * ti < c * r) by (nonlinear_arith)
                    requires
                        0 <= si < c,
                        0 <= ti < r,
                ;
                assert(c * r == cells) by (nonlinear_arith)
                    requires
                        c == product_of(stc),
                        r == product_of(ttc),
                        cells == product_of(stc) * product_of(ttc),
                ;
            }
            let index = source_index + cols * target_index;
            let ghost old_buffer = buffer@;
            buffer.set(index as usize, true);
            proof {
                assert forall|i: int| 0 <= i < cells implies (#[trigger] buffer@[i] <==> exists|j: int|
                    0 <= j < p + 1 && pair_index(pairs@[j].0@, pairs@[j].1@, *source, *target) == i) by {
                    if i == index as int {
                        assert(pair_index(pairs@[p as int].0@, pairs@[p as int].1@, *source, *target) == i);
                    } else {
                        assert(buffer@[i] == old_buffer[i]);
                        if exists|j: int| 0 <= j < p + 1 && pair_index(pairs@[j].0@, pairs@[j].1@, *source, *target) == i {
                            let j = choose|j: int| 0 <= j < p + 1 && pair_index(pairs@[j].0@, pairs@[j].1@, *source, *target) == i;
                            assert(j < p);
                        }
                    }
                }
            }
            p += 1;
        }
        Relation { source, target, matrix: Matrix::from_buffer(buffer, #[verifier::truncate] (cols as u8), #[verifier::truncate] (rows as u8)) }
    }
}

/// Whether `a` and `b` are the same relation: the same modules at both ends,
/// compared by their coefficients, and the same matrix.
pub open spec fn same_relation<R: Ranked>(a: Relation<R>, b: Relation<R>) -> bool {
    &&& a.source.coeff_values() == b.source.coeff_values()
    &&& a.target.coeff_values() == b.target.coeff_values()
    &&& a.matrix.ncols() == b.matrix.ncols()
    &&& a.matrix.nrows() == b.matrix.nrows()
    &&& a.matrix.entries() == b.matrix.entries()
}

/// Whether `a` and then `b` can be composed: well-shaped matrices whose
/// shapes meet in at least one position, with the row offsets of `b` in `u8`.
pub open spec fn composable<R: Ranked>(a: Relation<R>, b: Relation<R>) -> bool {
    &&& bool_well_shaped(a.matrix)
    &&& bool_well_shaped(b.matrix)
    &&& a.matrix.nrows() == b.matrix.ncols()
    &&& a.matrix.nrows() >= 1
    &&& (b.matrix.nrows() == 0 || (b.matrix.nrows() - 1) * b.matrix.ncols() <= u8::MAX)
}

/// Whether composing `a` and then `b` gives a relation that is the same as
/// `c`.
pub open spec fn composes_to<R: Ranked>(a: Relation<R>, b: Relation<R>, c: Relation<R>) -> bool {
    &&& a.source.coeff_values() == c.source.coeff_values()
    &&& b.target.coeff_values() == c.target.coeff_values()
    &&& a.matrix.ncols() == c.matrix.ncols()
    &&& b.matrix.nrows() == c.matrix.nrows()
    &&& composed(a.matrix, b.matrix) == c.matrix.entries()
}

impl<R: Ranked> Relation<R> {
    /// The source module, shared.
    pub fn source(&self) -> (m: Arc<CanonModule<R>>)
        ensures
            *m == *self.source,
    {
        share_arc(&self.source)
    }

    /// The target module, shared.
    pub fn target(&self) -> (m: Arc<CanonModule<R>>)
        ensures
            *m == *self.target,
    {
        share_arc(&self.target)
    }

    /// A copy: the same modules at both ends, and a matrix of the same shape
    /// and buffer.
    pub(crate) fn duplicate(&self) -> (d: Self)
        ensures
            *d.source == *self.source,
            *d.target == *self.target,
            d.matrix.ncols() == self.matrix.ncols(),
            d.matrix.nrows() == self.matrix.nrows(),
            d.matrix.entries() == self.matrix.entries(),
    {
        Relation {
            source: share_arc(&self.source),
            target: share_arc(&self.target),
            matrix: Matrix::from_buffer(self.matrix.buffer(), self.matrix.num_of_cols(), self.matrix.num_of_rows()),
        }
    }

    /// Whether `self` and `other` are the same relation.
    pub(crate) fn same_as(&self, other: &Self) -> (b: bool)
        ensures
            b == same_relation(*self, *other),
    {
        let s1: &CanonModule<R> = &self.source;
        let s2: &CanonModule<R> = &other.source;
        let t1: &CanonModule<R> = &self.target;
        let t2: &CanonModule<R> = &other.target;
        if !s1.eq(s2) || !t1.eq(t2) {
            return false;
        }
        if self.matrix.num_of_cols() != other.matrix.num_of_cols() || self.matrix.num_of_rows() != other.matrix.num_of_rows() {
            return false;
        }
        let a = self.matrix.iter();
        let b = other.matrix.iter();
        if a.len() != b.len() {
            return false;
        }
        let mut i: usize = 0;
        while i < a.len()
            invariant
                a@ == self.matrix.entries(),
                b@ == other.matrix.entries(),
                a@.len() == b@.len(),
                i <= a@.len(),
                forall|k: int| 0 <= k < i ==> a@[k] == b@[k],
            decreases a@.len() - i,
        {
            if a[i] != b[i] {
                return false;
            }
            i += 1;
        }
        proof {
            assert(a@ =~= b@);
        }
        true
    }

    /// The relation from the source of `self` to the target of `other`
    /// that relates `s` to `t` when `self` relates `s` to some element that
    /// `other` relates to `t`: the boolean composite of the two matrices.
    pub fn compose_unchecked(&self, other: &Self) -> (c: Self)
        requires
            compose_ok(self.matrix, other.matrix),
        ensures
            *c.source == *self.source,
            *c.target == *other.target,
            c.matrix.ncols() == self.matrix.ncols(),
            c.matrix.nrows() == other.matrix.nrows(),
            c.matrix.entries() == composed(self.matrix, other.matrix),
    {
        Relation {
            source: share_arc(&self.source),
            target: share_arc(&other.target),
            matrix: self.matrix.compose_unchecked_bool(&other.matrix),
        }
    }
}

/// The products of the coefficients before each one: one, then the first,
/// then the product of the first two, and so on.
fn index_shifts(tcs: &Vec<Int>) -> (shifts: Vec<Int>)
    requires
        forall|i: int| 0 <= i < tcs@.len() ==> tcs@[i] >= 1,
        product_of(tcs@.map_values(|x: Int| x as int)) <= Int::MAX,
    ensures
        shifts@.len() == tcs@.len(),
        forall|i: int| 0 <= i < tcs@.len() ==> #[trigger] shifts@[i] as int == product_of(tcs@.map_values(|x: Int| x as int).take(i)),
{
    let ghost s = tcs@.map_values(|x: Int| x as int);
    let mut prod: Int = 1;
    let mut shifts: Vec<Int> = Vec::new();
    let mut i: usize = 0;
    while i < tcs.len()
        invariant
            s == tcs@.map_values(|x: Int| x as int),
            forall|k: int| 0 <= k < s.len() ==> s[k] >= 1,
            product_of(s) <= Int::MAX,
            i <= tcs@.len(),
            prod == product_of(s.take(i as int)),
            shifts@.len() == i,
            forall|k: int| 0 <= k < i ==> #[trigger] shifts@[k] as int == product_of(s.take(k)),
        decreases tcs@.len() - i,
    {
        proof {
            assert(s.take(i + 1).drop_last() =~= s.take(i as int));
            lemma_product_monotone(s, i + 1);
        }
        shifts.push(prod);
        prod = prod * tcs[i];
        i += 1;
    }
    shifts
}

/// The product of the coefficients.
fn product_usize(tcs: &Vec<Int>) -> (p: Int)
    requires
        forall|i: int| 0 <= i < tcs@.len() ==> tcs@[i] >= 1,
        product_of(tcs@.map_values(|x: Int| x as int)) <= Int::MAX,
    ensures
        p == product_of(tcs@.map_values(|x: Int| x as int)),
{
    let ghost s = tcs@.map_values(|x: Int| x as int);
    let mut prod: Int = 1;
    let mut i: usize = 0;
    while i < tcs.len()
        invariant
            s == tcs@.map_values(|x: Int| x as int),
            forall|k: int| 0 <= k < s.len() ==> s[k] >= 1,
            product_of(s) <= Int::MAX,
            i <= tcs@.len(),
            prod == product_of(s.take(i as int)),
        decreases tcs@.len() - i,
    {
        proof {
            assert(s.take(i + 1).drop_last() =~= s.take(i as int));
            lemma_product_monotone(s, i + 1);
        }
        prod = prod * tcs[i];
        i += 1;
    }
    proof {
        assert(s.take(s.len() as int) =~= s);
    }
    prod
}

/// The index of the element with entries `xs` in the module with
/// coefficients `tcs`, whose shifts are `shifts`.
fn index_of<const N: u16>(xs: &Vec<Fin<N>>, tcs: &Vec<Int>, shifts: &Vec<Int>) -> (index: Int)
    requires
        forall|i: int| 0 <= i < tcs@.len() ==> tcs@[i] >= 1,
        product_of(tcs@.map_values(|x: Int| x as int)) <= Int::MAX,
        shifts@.len() == tcs@.len(),
        forall|i: int| 0 <= i < tcs@.len() ==> #[trigger] shifts@[i] as int == product_of(tcs@.map_values(|x: Int| x as int).take(i)),
        coordinates_in_range(xs@, tcs@.map_values(|x: Int| x as int)),
    ensures
        index == element_index(xs@, tcs@.map_values(|x: Int| x as int)),
        index < product_of(tcs@.map_values(|x: Int| x as int)),
{
    let ghost s = tcs@.map_values(|x: Int| x as int);
    let n = if xs.len() < tcs.len() { xs.len() } else { tcs.len() };
    let mut sum: Int = 0;
    let mut i: usize = 0;
    while i < n
        invariant
            s == tcs@.map_values(|x: Int| x as int),
            n == common_len(xs@, s),
            n <= s.len(),
            n <= xs@.len(),
            forall|k: int| 0 <= k < s.len() ==> s[k] >= 1,
            product_of(s) <= Int::MAX,
            shifts@.len() == s.len(),
            forall|k: int| 0 <= k < s.len() ==> #[trigger] shifts@[k] as int == product_of(s.take(k)),
            coordinates_in_range(xs@, s),
            i <= n,
            sum == mixed_index(xs@, s, i as int),
            sum < product_of(s.take(i as int)),
        decreases n - i,
    {
        let tc = tcs[i];
        let entry = xs[i].get();
        let x = entry % N;
        assert(s[i as int] == tc as int);
        let digit = if tc != 1 { x % tc } else { x };
        proof {
            assert(digit == coordinate(xs@[i as int], s[i as int]));
            assert(digit < tc);
            assert(s.take(i + 1).drop_last() =~= s.take(i as int));
            lemma_product_monotone(s, i + 1);
            let d = digit as int;
            let sh = product_of(s.take(i as int));
            let t = tc as int;
            assert(sum + d * sh < sh * t) by (nonlinear_arith)
                requires
                    0 <= sum < sh,
                    0 <= d < t,
            ;
            assert(sh * t == product_of(s.take(i + 1)));
        }
        sum = sum + digit * shifts[i];
        i += 1;
    }
    proof {
        lemma_product_monotone(s, n as int);
    }
    sum
}

/// Positive entries, read as integers, stay positive.
proof fn lemma_positive_seq(v: Seq<Int>, s: Seq<int>)
    requires
        v.map_values(|x: Int| x as int) == s,
        forall|i: int| 0 <= i < v.len() ==> v[i] >= 1,
    ensures
        forall|i: int| 0 <= i < s.len() ==> s[i] >= 1,
{
    assert forall|i: int| 0 <= i < s.len() implies s[i] >= 1 by {
        assert(s[i] == v[i] as int);
    }
}

/* # powers of an endomorphism */

/// The buffer of the `k`-th power of the relation with buffer `f` on a set of
/// `n` elements: the diagonal, then each power followed by `f`.
pub open spec fn power(f: Seq<bool>, n: int, k: nat) -> Seq<bool>
    decreases k,
{
    if k == 0 {
        diagonal(n)
    } else {
        bool_product(power(f, n, (k - 1) as nat), f, n, n, n)
    }
}

/// Every sequence of `m` booleans.
pub open spec fn bool_seqs(m: nat) -> Set<Seq<bool>>
    decreases m,
{
    if m == 0 {
        set![Seq::<bool>::empty()]
    } else {
        let shorter = bool_seqs((m - 1) as nat);
        shorter.map(|s: Seq<bool>| s.push(false)) + shorter.map(|s: Seq<bool>| s.push(true))
    }
}

proof fn lemma_bool_seqs(m: nat)
    ensures
        bool_seqs(m).finite(),
        forall|s: Seq<bool>| s.len() == m ==> #[trigger] bool_seqs(m).contains(s),
    decreases m,
{
    if m > 0 {
        let shorter = bool_seqs((m - 1) as nat);
        lemma_bool_seqs((m - 1) as nat);
        let with_false = |s: Seq<bool>| s.push(false);
        let with_true = |s: Seq<bool>| s.push(true);
        shorter.lemma_map_finite(with_false);
        shorter.lemma_map_finite(with_true);
        assert forall|s: Seq<bool>| s.len() == m implies #[trigger] bool_seqs(m).contains(s) by {
            let d = s.drop_last();
            assert(shorter.contains(d));
            assert(s =~= d.push(s.last()));
            if s.last() {
                assert(with_true(d) == s);
                assert(shorter.map(with_true).contains(s));
            } else {
                assert(with_false(d) == s);
                assert(shorter.map(with_false).contains(s));
            }
        }
    } else {
        assert forall|s: Seq<bool>| s.len() == m implies #[trigger] bool_seqs(m).contains(s) by {
            assert(s =~= Seq::<bool>::empty());
        }
    }
}

/// Distinct sequences of `m` booleans are no more than all of them.
proof fn lemma_distinct_bool_seqs(ss: Seq<Seq<bool>>, m: nat)
    requires
        ss.no_duplicates(),
        forall|i: int| 0 <= i < ss.len() ==> (#[trigger] ss[i]).len() == m,
    ensures
        ss.len() <= bool_seqs(m).len(),
{
    lemma_bool_seqs(m);
    ss.unique_seq_to_set();
    assert forall|s: Seq<bool>| ss.to_set().contains(s) implies bool_seqs(m).contains(s) by {
        let i = choose|i: int| 0 <= i < ss.len() && ss[i] == s;
        assert(ss[i].len() == m);
    }
    vstd::set_lib::lemma_len_subset(ss.to_set(), bool_seqs(m));
}

/// The number of elements of the source of `r`.
pub open spec fn domain_size<const N: u16>(r: Relation<Fin<N>>) -> int {
    size(*r.source)
}

/// Whether `c` is the cycle of the endomorphism `f`: the powers of `f`, from
/// the identity on, as far as the first power that repeats an earlier one.
pub open spec fn is_cycle_of<const N: u16>(c: Seq<Relation<Fin<N>>>, f: Relation<Fin<N>>) -> bool {
    let n = size(*f.source);
    let e = f.matrix.entries();
    &&& c.len() >= 1
    &&& forall|i: int|
        0 <= i < c.len() ==> {
            &&& *(#[trigger] c[i]).source == *f.source
            &&& *c[i].target == (if i == 0 { *f.source } else { *f.target })
            &&& bool_well_shaped(c[i].matrix)
            &&& c[i].matrix.ncols() == n
            &&& c[i].matrix.nrows() == n
            &&& c[i].matrix.entries() == power(e, n, i as nat)
        }
    &&& forall|i: int, j: int| 0 <= i < j < c.len() ==> (#[trigger] c[i]).matrix.entries() != (#[trigger] c[j]).matrix.entries()
    &&& exists|k: int| 0 <= k < c.len() && power(e, n, c.len()) == (#[trigger] c[k]).matrix.entries()
}

/// The buffer of the `i`-th power of `f` (for `i` a position).
pub open spec fn power_at(f: Seq<bool>, n: int, i: int) -> Seq<bool> {
    power(f, n, i as nat)
}

/// `len` is where the powers of `f` first repeat: the powers below it are
/// distinct and the power at it is one of them.
pub open spec fn repeats_at(f: Seq<bool>, n: int, len: int) -> bool {
    &&& len >= 1
    &&& forall|i: int, j: int| 0 <= i < j < len ==> #[trigger] power_at(f, n, i) != #[trigger] power_at(f, n, j)
    &&& exists|k: int| 0 <= k < len && power_at(f, n, len) == #[trigger] power_at(f, n, k)
}

/// The buffers of the cycle of the endomorphism `f`: its powers, from the
/// identity on, as far as the first that repeats an earlier one.
pub open spec fn cycle_entries<const N: u16>(f: Relation<Fin<N>>) -> Seq<Seq<bool>> {
    let n = size(*f.source);
    let e = f.matrix.entries();
    let len = choose|len: int| repeats_at(e, n, len);
    Seq::new(len as nat, |i: int| power_at(e, n, i))
}

/// The buffers of the members of `c`.
pub open spec fn entries_of<const N: u16>(c: Seq<Relation<Fin<N>>>) -> Seq<Seq<bool>> {
    c.map_values(|r: Relation<Fin<N>>| r.matrix.entries())
}

/// The powers first repeat at one place only.
proof fn lemma_repeats_at_unique(f: Seq<bool>, n: int, a: int, b: int)
    requires
        repeats_at(f, n, a),
        repeats_at(f, n, b),
    ensures
        a == b,
{
    if a < b {
        let k = choose|k: int| 0 <= k < a && power_at(f, n, a) == #[trigger] power_at(f, n, k);
        assert(power_at(f, n, k) != power_at(f, n, a));
    } else if b < a {
        let k = choose|k: int| 0 <= k < b && power_at(f, n, b) == #[trigger] power_at(f, n, k);
        assert(power_at(f, n, k) != power_at(f, n, b));
    }
}

/// A cycle of `f` has the buffers that `cycle_entries` gives.
pub proof fn lemma_cycle_entries<const N: u16>(c: Seq<Relation<Fin<N>>>, f: Relation<Fin<N>>)
    requires
        is_cycle_of(c, f),
    ensures
        entries_of(c) == cycle_entries(f),
{
    let n = domain_size(f);
    let e = f.matrix.entries();
    assert forall|i: int, j: int| 0 <= i < j < c.len() implies #[trigger] power_at(e, n, i) != #[trigger] power_at(e, n, j) by {
        assert(c[i].matrix.entries() != c[j].matrix.entries());
    }
    let k = choose|k: int| 0 <= k < c.len() && power(e, n, c.len()) == (#[trigger] c[k]).matrix.entries();
    assert(power_at(e, n, c.len() as int) == power_at(e, n, k));
    assert(repeats_at(e, n, c.len() as int));
    let len = choose|len: int| repeats_at(e, n, len);
    lemma_repeats_at_unique(e, n, len, c.len() as int);
    assert(entries_of(c) =~= cycle_entries(f));
}

proof fn lemma_power_len(f: Seq<bool>, n: int, k: nat)
    requires
        n >= 0,
    ensures
        power(f, n, k).len() == n * n,
    decreases k,
{
    if k > 0 {
        lemma_power_len(f, n, (k - 1) as nat);
    }
}

proof fn lemma_find_repeat(f: Seq<bool>, n: int, len: int)
    requires
        n >= 0,
        len >= 1,
        forall|i: int, j: int| 0 <= i < j < len ==> #[trigger] power_at(f, n, i) != #[trigger] power_at(f, n, j),
    ensures
        exists|l: int| repeats_at(f, n, l),
    decreases bool_seqs((n * n) as nat).len() - len,
{
    if exists|k: int| 0 <= k < len && power_at(f, n, len) == #[trigger] power_at(f, n, k) {
        assert(repeats_at(f, n, len));
    } else {
        let ps = Seq::new((len + 1) as nat, |i: int| power_at(f, n, i));
        assert forall|i: int, j: int| 0 <= i < j < len + 1 implies #[trigger] power_at(f, n, i) != #[trigger] power_at(f, n, j) by {
            if j == len {
                if power_at(f, n, i) == power_at(f, n, j) {
                    assert(power_at(f, n, len) == power_at(f, n, i));
                }
            }
        }
        assert forall|i: int, j: int| 0 <= i < ps.len() && 0 <= j < ps.len() && i != j implies ps[i] != ps[j] by {
            if i < j {
                assert(power_at(f, n, i) != power_at(f, n, j));
            } else {
                assert(power_at(f, n, j) != power_at(f, n, i));
            }
        }
        assert forall|i: int| 0 <= i < ps.len() implies (#[trigger] ps[i]).len() == (n * n) as nat by {
            lemma_power_len(f, n, i as nat);
        }
        lemma_distinct_bool_seqs(ps, (n * n) as nat);
        lemma_find_repeat(f, n, len + 1);
    }
}

/// Powers add: the `(i + j)`-th power is the `i`-th followed by the `j`-th.
pub proof fn lemma_power_add(f: Seq<bool>, n: int, i: nat, j: nat)
    requires
        n >= 1,
    ensures
        power(f, n, i + j) == bool_product(power(f, n, i), power(f, n, j), n, n, n),
    decreases j,
{
    lemma_power_len(f, n, i);
    if j == 0 {
        lemma_product_identity(power(f, n, i), n, n);
        assert(i + j == i);
    } else {
        lemma_power_add(f, n, i, (j - 1) as nat);
        lemma_product_assoc(power(f, n, i), power(f, n, (j - 1) as nat), f, n, n, n, n);
        assert(i + j == (i + (j - 1) as nat) + 1);
    }
}

/// A relation `a` that turns `r` into `l` (`a` then `r` is `l` then `a`)
/// turns every power of `r` into the same power of `l`.
pub proof fn lemma_intertwine_powers(a: Seq<bool>, le: Seq<bool>, re: Seq<bool>, nl: int, nr: int, k: nat)
    requires
        nl >= 1,
        nr >= 1,
        a.len() == nl * nr,
        bool_product(a, re, nl, nr, nr) == bool_product(le, a, nl, nl, nr),
    ensures
        bool_product(a, power(re, nr, k), nl, nr, nr) == bool_product(power(le, nl, k), a, nl, nl, nr),
    decreases k,
{
    if k == 0 {
        lemma_product_identity(a, nr, nl);
        lemma_product_identity(a, nl, nr);
    } else {
        let k1 = (k - 1) as nat;
        lemma_intertwine_powers(a, le, re, nl, nr, k1);
        lemma_product_assoc(a, power(re, nr, k1), re, nl, nr, nr, nr);
        lemma_product_assoc(power(le, nl, k1), a, re, nl, nl, nr, nr);
        lemma_product_assoc(power(le, nl, k1), le, a, nl, nl, nl, nr);
    }
}

/// Equal powers stay equal further on.
proof fn lemma_power_shift(f: Seq<bool>, n: int, i: nat, j: nat, t: nat)
    requires
        power(f, n, i) == power(f, n, j),
    ensures
        power(f, n, i + t) == power(f, n, j + t),
    decreases t,
{
    if t > 0 {
        lemma_power_shift(f, n, i, j, (t - 1) as nat);
        assert(i + t == (i + (t - 1) as nat) + 1);
        assert(j + t == (j + (t - 1) as nat) + 1);
    }
}

/// Where the powers first repeat at `len`, every power is one below `len`.
pub proof fn lemma_power_in_cycle(f: Seq<bool>, n: int, len: int, k: nat)
    requires
        repeats_at(f, n, len),
    ensures
        exists|j: int| 0 <= j < len && power_at(f, n, k as int) == #[trigger] power_at(f, n, j),
    decreases k,
{
    if k < len {
        assert(power_at(f, n, k as int) == power_at(f, n, k as int));
    } else {
        let k0 = choose|k0: int| 0 <= k0 < len && power_at(f, n, len) == #[trigger] power_at(f, n, k0);
        let t = (k - len) as nat;
        lemma_power_shift(f, n, len as nat, k0 as nat, t);
        assert(len as nat + t == k);
        lemma_power_in_cycle(f, n, len, (k0 as nat + t) as nat);
    }
}

/// The powers of every relation on a set of `n` elements repeat somewhere,
/// so that its cycle is defined.
pub proof fn lemma_cycle_exists(f: Seq<bool>, n: int)
    requires
        n >= 0,
    ensures
        exists|l: int| repeats_at(f, n, l),
{
    lemma_find_repeat(f, n, 1);
}

impl<const N: u16> Relation<Fin<N>> {
    /// Whether the ends of `self` have the same coefficients.
    pub fn is_endo(&self) -> (b: bool)
        ensures
            b == (self.source.coeff_values() == self.target.coeff_values()),
    {
        let s: &CanonModule<Fin<N>> = &self.source;
        let t: &CanonModule<Fin<N>> = &self.target;
        s.eq(t)
    }

    /// `self` then `other`, where the target of `self` has the coefficients of
    /// the source of `other`; `None` otherwise.
    pub fn try_compose(&self, other: &Self) -> (c: Option<Self>)
        requires
            self.target.coeff_values() == other.source.coeff_values() ==> composable(*self, *other),
        ensures
            c is None <==> self.target.coeff_values() != other.source.coeff_values(),
            c is Some ==> {
                &&& *c->Some_0.source == *self.source
                &&& *c->Some_0.target == *other.target
                &&& c->Some_0.matrix.ncols() == self.matrix.ncols()
                &&& c->Some_0.matrix.nrows() == other.matrix.nrows()
                &&& c->Some_0.matrix.entries() == composed(self.matrix, other.matrix)
            },
    {
        let t: &CanonModule<Fin<N>> = &self.target;
        let s: &CanonModule<Fin<N>> = &other.source;
        if t.eq(s) {
            proof {
                lemma_bool_compose_ok(self.matrix, other.matrix);
            }
            Some(self.compose_unchecked(other))
        } else {
            None
        }
    }

    /// The identity relation on `object`: every element related to itself
    /// and nothing else.
    pub fn identity(object: Arc<CanonModule<Fin<N>>>) -> (r: Self)
        requires
            size(*object) <= u8::MAX,
        ensures
            *r.source == *object,
            *r.target == *object,
            bool_well_shaped(r.matrix),
            r.matrix.ncols() == size(*object),
            r.matrix.nrows() == size(*object),
            r.matrix.entries() == diagonal(size(*object)),
    {
        let m: &CanonModule<Fin<N>> = &object;
        let n = m.cardinality();
        let ghost d = diagonal(n as int);
        let mut buffer: Vec<bool> = Vec::new();
        let mut row: usize = 0;
        while row < n
            invariant
                n <= u8::MAX,
                d == diagonal(n as int),
                row <= n,
                buffer@ == d.take(row * n),
            decreases n - row,
        {
            let mut col: usize = 0;
            while col < n
                invariant
                    n <= u8::MAX,
                    d == diagonal(n as int),
                    row < n,
                    col <= n,
                    buffer@ == d.take(row * n + col),
                decreases n - col,
            {
                proof {
                    assert(row * n + col < n * n) by (nonlinear_arith)
                        requires
                            row < n,
                            col < n,
                    ;
                    vstd::arithmetic::div_mod::lemma_fundamental_div_mod_converse(row * n + col, n as int, row as int, col as int);
                    assert(d[row * n + col] == (row == col));
                    assert(d.take(row * n + col).push(row == col) =~= d.take(row * n + col + 1));
                }
                buffer.push(row == col);
                col += 1;
            }
            proof {
                assert(row * n + n == (row + 1) * n) by (nonlinear_arith);
            }
            row += 1;
        }
        proof {
            assert(d.take(n * n) =~= d);
        }
        let n8 = n as u8;
        Relation { source: share_arc(&object), target: object, matrix: Matrix::from_buffer(buffer, n8, n8) }
    }

    /// The powers of `self`, from the identity on, up to the last one before
    /// the first power that repeats an earlier one; `None` where `self` is no
    /// endomorphism (where its ends have different coefficients).
    pub fn try_cycle(&self) -> (c: Option<Vec<Self>>)
        requires
            self.source.coeff_values() == self.target.coeff_values() ==> small(*self.source) && relates(
                *self,
                *self.source,
                *self.target,
            ),
        ensures
            c is None <==> self.source.coeff_values() != self.target.coeff_values(),
            c is Some ==> is_cycle_of(c->Some_0@, *self),
    {
        let s: &CanonModule<Fin<N>> = &self.source;
        let t: &CanonModule<Fin<N>> = &self.target;
        if !s.eq(t) {
            return None;
        }
        let ghost n = domain_size(*self);
        let ghost e = self.matrix.entries();
        let ghost bound = bool_seqs((n * n) as nat).len();
        let mut seen: Vec<Self> = Vec::new();
        seen.push(Self::identity(self.source()));
        proof {
            lemma_bool_seqs((n * n) as nat);
            lemma_distinct_bool_seqs(seq![diagonal(n)], (n * n) as nat);
        }
        loop
            invariant
                n == size(*self.source),
                e == self.matrix.entries(),
                bound == bool_seqs((n * n) as nat).len(),
                1 <= n <= 16,
                self.source.coeff_values() == self.target.coeff_values(),
                relates(*self, *self.source, *self.target),
                seen@.len() >= 1,
                seen@.len() <= bound,
                forall|i: int|
                    0 <= i < seen@.len() ==> {
                        &&& *(#[trigger] seen@[i]).source == *self.source
                        &&& *seen@[i].target == (if i == 0 { *self.source } else { *self.target })
                        &&& bool_well_shaped(seen@[i].matrix)
                        &&& seen@[i].matrix.ncols() == n
                        &&& seen@[i].matrix.nrows() == n
                        &&& seen@[i].matrix.entries() == power(e, n, i as nat)
                    },
                forall|i: int, j: int| 0 <= i < j < seen@.len() ==> (#[trigger] seen@[i]).matrix.entries() != (#[trigger] seen@[j]).matrix.entries(),
            ensures
                seen@.len() >= 1,
                forall|i: int|
                    0 <= i < seen@.len() ==> {
                        &&& *(#[trigger] seen@[i]).source == *self.source
                        &&& *seen@[i].target == (if i == 0 { *self.source } else { *self.target })
                        &&& bool_well_shaped(seen@[i].matrix)
                        &&& seen@[i].matrix.ncols() == n
                        &&& seen@[i].matrix.nrows() == n
                        &&& seen@[i].matrix.entries() == power(e, n, i as nat)
                    },
                forall|i: int, j: int| 0 <= i < j < seen@.len() ==> (#[trigger] seen@[i]).matrix.entries() != (#[trigger] seen@[j]).matrix.entries(),
                exists|k: int| 0 <= k < seen@.len() && power(e, n, seen@.len()) == (#[trigger] seen@[k]).matrix.entries(),
            decreases bound - seen@.len(),
        {
            let last = seen.len() - 1;
            proof {
                assert(seen@[last as int].matrix.nrows() == n);
                assert((n - 1) * n <= u8::MAX) by (nonlinear_arith)
                    requires
                        1 <= n <= 16,
                ;
                lemma_bool_compose_ok(seen@[last as int].matrix, self.matrix);
                lemma_composed_is_product(seen@[last as int].matrix, self.matrix);
            }
            let next = seen[last].compose_unchecked(self);
            proof {
                assert(next.matrix.entries() == power(e, n, seen@.len()));
            }
            let mut found = false;
            let mut k: usize = 0;
            while k < seen.len()
                invariant
                    0 <= k <= seen@.len(),
                    self.source.coeff_values() == self.target.coeff_values(),
                    *next.source == *self.source,
                    *next.target == *self.target,
                    next.matrix.ncols() == n,
                    next.matrix.nrows() == n,
                    next.matrix.entries() == power(e, n, seen@.len()),
                    forall|i: int|
                        0 <= i < seen@.len() ==> {
                            &&& *(#[trigger] seen@[i]).source == *self.source
                            &&& *seen@[i].target == (if i == 0 { *self.source } else { *self.target })
                            &&& seen@[i].matrix.ncols() == n
                            &&& seen@[i].matrix.nrows() == n
                            &&& seen@[i].matrix.entries() == power(e, n, i as nat)
                        },
                    found <==> exists|j: int| 0 <= j < k && power(e, n, seen@.len()) == (#[trigger] seen@[j]).matrix.entries(),
                decreases seen@.len() - k,
            {
                if seen[k].same_as(&next) {
                    found = true;
                }
                k += 1;
            }
            if found {
                break;
            }
            let ghost before = seen@;
            seen.push(next);
            proof {
                let es = Seq::new(seen@.len(), |i: int| seen@[i].matrix.entries());
                assert forall|i: int, j: int| 0 <= i < j < seen@.len() implies (#[trigger] seen@[i]).matrix.entries() != (#[trigger] seen@[j]).matrix.entries() by {
                    if j == seen@.len() - 1 {
                        assert(seen@[i] == before[i]);
                        if seen@[i].matrix.entries() == seen@[j].matrix.entries() {
                            assert(power(e, n, before.len()) == before[i].matrix.entries());
                        }
                    } else {
                        assert(seen@[i] == before[i]);
                        assert(seen@[j] == before[j]);
                    }
                }
                assert forall|i: int, j: int| 0 <= i < es.len() && 0 <= j < es.len() && i != j implies es[i] != es[j] by {
                    if i < j {
                        assert(seen@[i].matrix.entries() != seen@[j].matrix.entries());
                    } else {
                        assert(seen@[j].matrix.entries() != seen@[i].matrix.entries());
                    }
                }
                assert forall|i: int| 0 <= i < es.len() implies (#[trigger] es[i]).len() == (n * n) as nat by {
                    assert(bool_well_shaped(seen@[i].matrix));
                }
                lemma_distinct_bool_seqs(es, (n * n) as nat);
            }
        }
        Some(seen)
    }
}

} // verus!
