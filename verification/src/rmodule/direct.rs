//! Direct sums of two modules in canonical form, with their inclusions and
//! projections.
use vstd::prelude::*;
use std::sync::Arc;
use std::collections::BTreeSet;
use crate::matrix::Matrix;
use crate::util::matrix::{transpose_ok, transposed};
use crate::rmodule::canon::{CanonModule, indicator, fin_versor};
use crate::rmodule::map::{CanonToCanon, reduced_rows, new_ok};
use crate::rmodule::ring::Fin;
use crate::rmodule::torsion::{Coeff, CoeffTree, alternate, has_key, key_position, put_all, same_key, law_split_join, lemma_put_all_has};
use crate::util::ident::share_arc;
use crate::util::order::Ranked;
use crate::util::seq::lemma_flatten_uniform;

verus! {

broadcast use vstd::std_specs::btree::group_btree_axioms, vstd::laws_cmp::group_laws_cmp;

/// The direct sum of two modules, given by the inclusions of the two
/// summands into it and the projections from it onto them.
#[derive(Debug, PartialEq, Eq)]
pub struct DirectModule<R: Ranked> {
    pub left_inclusion: CanonToCanon<R>,
    pub right_inclusion: CanonToCanon<R>,
    pub left_projection: CanonToCanon<R>,
    pub right_projection: CanonToCanon<R>,
}

impl<R: Ranked> DirectModule<R> {
    /// The left summand: the source of the left inclusion.
    pub fn left(&self) -> (m: Arc<CanonModule<R>>)
        ensures
            *m == self.left_inclusion.domain(),
    {
        self.left_inclusion.source()
    }

    /// The right summand: the source of the right inclusion.
    pub fn right(&self) -> (m: Arc<CanonModule<R>>)
        ensures
            *m == self.right_inclusion.domain(),
    {
        self.right_inclusion.source()
    }

    /// The sum: the target of the left inclusion.
    pub fn module(&self) -> (m: Arc<CanonModule<R>>)
        ensures
            *m == self.left_inclusion.codomain(),
    {
        self.left_inclusion.target()
    }
}

/// The keys of the direct sum of `left` and `right`: those of `left`, with
/// the keys of `right` put in.
pub open spec fn direct_keys<R: Ranked>(left: CanonModule<R>, right: CanonModule<R>) -> Seq<Coeff<R>> {
    put_all(left.tree().key_seq(), right.tree().key_seq())
}

/// The buffer of the inclusion of a summand with keys `ps` into a sum with
/// keys `ds`, row by row over `ds`, a column for each key of `ps`: one
/// where the row is the position of the column's key in `ds`.
pub open spec fn inclusion_buffer<const N: u16>(ds: Seq<Coeff<Fin<N>>>, ps: Seq<Coeff<Fin<N>>>) -> Seq<Fin<N>> {
    Seq::new(
        ds.len() * ps.len(),
        |i: int| indicator(i / (ps.len() as int) == key_position(ds, ps[i % (ps.len() as int)])),
    )
}

/// The buffer of the projection of a sum with keys `ds` onto a summand with
/// keys `ps`: a block of `ps.len()` entries for each key of `ds`, with a one
/// at the position of that key in `ps` where `ps` holds it.
pub open spec fn projection_buffer<const N: u16>(ds: Seq<Coeff<Fin<N>>>, ps: Seq<Coeff<Fin<N>>>) -> Seq<Fin<N>> {
    Seq::new(
        ds.len() * ps.len(),
        |i: int|
            {
                let r = i / (ps.len() as int);
                let l = i % (ps.len() as int);
                indicator(has_key(ps, ds[r]) && l == key_position(ps, ds[r]))
            },
    )
}

/// For each key of `part`, the vector of the sum `sum` with a one at that
/// key: the columns of the inclusion.
fn inclusion_cols<const N: u16>(part: &CanonModule<Fin<N>>, sum: &CanonModule<Fin<N>>) -> (cols: Vec<Vec<Fin<N>>>)
    requires
        N > 0,
        part.tree().wf(),
        sum.tree().wf(),
        forall|l: int| 0 <= l < part.tree().key_seq().len() ==> has_key(sum.tree().key_seq(), #[trigger] part.tree().key_seq()[l]),
    ensures
        cols@.len() == part.tree().key_seq().len(),
        forall|l: int|
            0 <= l < cols@.len() ==> (#[trigger] cols@[l])@ == Seq::new(
                sum.tree().key_seq().len(),
                |r: int| indicator::<N>(r == key_position(sum.tree().key_seq(), part.tree().key_seq()[l])),
            ),
{
    let keys = part.coeff_tree().keys();
    let sum_tree = sum.coeff_tree();
    let n = sum_tree.len();
    let mut cols: Vec<Vec<Fin<N>>> = Vec::new();
    let mut l: usize = 0;
    while l < keys.len()
        invariant
            N > 0,
            keys@ == part.tree().key_seq(),
            *sum_tree == sum.tree(),
            sum_tree.wf(),
            n == sum.tree().key_seq().len(),
            forall|k: int| 0 <= k < keys@.len() ==> has_key(sum.tree().key_seq(), #[trigger] keys@[k]),
            l <= keys@.len(),
            cols@.len() == l,
            forall|k: int|
                0 <= k < l ==> (#[trigger] cols@[k])@ == Seq::new(
                    sum.tree().key_seq().len(),
                    |r: int| indicator::<N>(r == key_position(sum.tree().key_seq(), part.tree().key_seq()[k])),
                ),
        decreases keys@.len() - l,
    {
        proof {
            assert(has_key(sum.tree().key_seq(), keys@[l as int]));
        }
        match sum_tree.position_of(&keys[l]) {
            Some(pos) => {
                let col = fin_versor(pos, n);
                proof {
                    assert(col@ =~= Seq::new(
                        sum.tree().key_seq().len(),
                        |r: int| indicator::<N>(r == key_position(sum.tree().key_seq(), part.tree().key_seq()[l as int])),
                    ));
                }
                cols.push(col);
            },
            None => {
                assert(false);
            },
        }
        l += 1;
    }
    cols
}

/// For each key of the sum `sum`, the vector of `part` with a one at that
/// key where `part` holds it, and zeros where it does not: the rows of the
/// projection.
fn projection_rows<const N: u16>(part: &CanonModule<Fin<N>>, sum: &CanonModule<Fin<N>>) -> (rows: Vec<Vec<Fin<N>>>)
    requires
        N > 0,
        part.tree().wf(),
    ensures
        rows@.len() == sum.tree().key_seq().len(),
        forall|r: int|
            0 <= r < rows@.len() ==> (#[trigger] rows@[r])@ == Seq::new(
                part.tree().key_seq().len(),
                |l: int|
                    indicator::<N>(
                        has_key(part.tree().key_seq(), sum.tree().key_seq()[r]) && l == key_position(
                            part.tree().key_seq(),
                            sum.tree().key_seq()[r],
                        ),
                    ),
            ),
{
    let keys = sum.coeff_tree().keys();
    let part_tree = part.coeff_tree();
    let n = part_tree.len();
    let mut rows: Vec<Vec<Fin<N>>> = Vec::new();
    let mut r: usize = 0;
    while r < keys.len()
        invariant
            N > 0,
            keys@ == sum.tree().key_seq(),
            *part_tree == part.tree(),
            part_tree.wf(),
            n == part.tree().key_seq().len(),
            r <= keys@.len(),
            rows@.len() == r,
            forall|k: int|
                0 <= k < r ==> (#[trigger] rows@[k])@ == Seq::new(
                    part.tree().key_seq().len(),
                    |l: int|
                        indicator::<N>(
                            has_key(part.tree().key_seq(), sum.tree().key_seq()[k]) && l == key_position(
                                part.tree().key_seq(),
                                sum.tree().key_seq()[k],
                            ),
                        ),
                ),
        decreases keys@.len() - r,
    {
        let ghost target = Seq::new(
            part.tree().key_seq().len(),
            |l: int|
                indicator::<N>(
                    has_key(part.tree().key_seq(), sum.tree().key_seq()[r as int]) && l == key_position(
                        part.tree().key_seq(),
                        sum.tree().key_seq()[r as int],
                    ),
                ),
        );
        let row = match part_tree.position_of(&keys[r]) {
            Some(pos) => fin_versor(pos, n),
            None => fin_versor(n, n),
        };
        proof {
            assert(row@ =~= target);
        }
        rows.push(row);
        r += 1;
    }
    rows
}

impl<const N: u16> DirectModule<Fin<N>> {
    /// The direct sum of `left` and `right`: the module whose keys are those
    /// of both, with the inclusion of each summand, which sends each key to
    /// itself, and a projection onto it. The projection's buffer holds, for
    /// each key of the sum in turn, a block with a one at that key's place
    /// among the summand's keys (`projection_buffer`), read row by row as a
    /// matrix with a row per key of the summand and a column per key of the
    /// sum. Where the summand has one key this keeps that key and sends the
    /// others to zero; with more keys the blocks do not line up with the
    /// rows, and the projection is not a left inverse of the inclusion.
    pub fn sumproduct(left: &Arc<CanonModule<Fin<N>>>, right: &Arc<CanonModule<Fin<N>>>) -> (d: Self)
        requires
            N > 0,
            left.tree().wf(),
            right.tree().wf(),
            direct_keys(**left, **right).len() * left.tree().key_seq().len() <= u8::MAX,
            direct_keys(**left, **right).len() * right.tree().key_seq().len() <= u8::MAX,
        ensures
            d.left_inclusion.domain() == **left,
            d.right_inclusion.domain() == **right,
            d.left_inclusion.codomain().tree().wf(),
            d.left_inclusion.codomain().tree().key_seq() == direct_keys(**left, **right),
            d.right_inclusion.codomain() == d.left_inclusion.codomain(),
            d.left_projection.domain() == d.left_inclusion.codomain(),
            d.right_projection.domain() == d.left_inclusion.codomain(),
            d.left_projection.codomain() == **left,
            d.right_projection.codomain() == **right,
            inclusion_spec(d.left_inclusion, left.tree().key_seq(), direct_keys(**left, **right)),
            inclusion_spec(d.right_inclusion, right.tree().key_seq(), direct_keys(**left, **right)),
            projection_spec(d.left_projection, left.tree().key_seq(), direct_keys(**left, **right)),
            projection_spec(d.right_projection, right.tree().key_seq(), direct_keys(**left, **right)),
    {
        let mut coeff_tree: CoeffTree<Fin<N>, ()> = left.coeff_tree().map_ref(|_x: &(), _c: Fin<N>| ());
        let other: CoeffTree<Fin<N>, ()> = right.coeff_tree().map_ref(|_x: &(), _c: Fin<N>| ());
        coeff_tree.join(other);
        let direct = Arc::new(CanonModule::new(coeff_tree));
        let left_module: &CanonModule<Fin<N>> = left;
        let right_module: &CanonModule<Fin<N>> = right;
        let ghost ls = left.tree().key_seq();
        let ghost rs = right.tree().key_seq();
        let ghost ds = direct_keys(*left_module, *right_module);
        proof {
            lemma_put_all_has(ls, rs);
            lemma_dims(ds.len() as int, ls.len() as int);
            lemma_dims(ds.len() as int, rs.len() as int);
            assert forall|l: int| 0 <= l < ls.len() implies has_key(ds, #[trigger] ls[l]) by {
                assert(same_key(ls[l], ls[l]));
                assert(has_key(ls, ls[l]));
            }
            if ls.len() == 0 && rs.len() == 0 {
                assert(ds =~= ls);
            }
        }
        let left_dim = left.coeff_tree().len() as u8;
        let right_dim = right.coeff_tree().len() as u8;
        let left_inclusion = Self::inclusion(left, &direct, left_dim);
        let right_inclusion = Self::inclusion(right, &direct, right_dim);
        let left_projection = Self::projection(left, &direct, left_dim);
        let right_projection = Self::projection(right, &direct, right_dim);
        Self { left_inclusion, right_inclusion, left_projection, right_projection }
    }

    /// The direct sum of the two halves of `canon`: the keys at even
    /// positions on the left, those at odd positions on the right. The sum
    /// has the keys of `canon` again.
    pub fn from(canon: CanonModule<Fin<N>>) -> (d: Self)
        requires
            N > 0,
            canon.tree().wf(),
            canon.tree().key_seq().len() * alternate(canon.tree().key_seq(), 0).len() <= u8::MAX,
        ensures
            d.left_inclusion.domain().tree().key_seq() == alternate(canon.tree().key_seq(), 0),
            d.right_inclusion.domain().tree().key_seq() == alternate(canon.tree().key_seq(), 1),
            d.left_inclusion.codomain().tree().wf(),
            d.left_inclusion.codomain().tree().key_seq() == canon.tree().key_seq(),
            d.right_inclusion.codomain() == d.left_inclusion.codomain(),
            d.left_projection.domain() == d.left_inclusion.codomain(),
            d.right_projection.domain() == d.left_inclusion.codomain(),
            d.left_projection.codomain() == d.left_inclusion.domain(),
            d.right_projection.codomain() == d.right_inclusion.domain(),
            inclusion_spec(d.left_inclusion, alternate(canon.tree().key_seq(), 0), canon.tree().key_seq()),
            inclusion_spec(d.right_inclusion, alternate(canon.tree().key_seq(), 1), canon.tree().key_seq()),
            projection_spec(d.left_projection, alternate(canon.tree().key_seq(), 0), canon.tree().key_seq()),
            projection_spec(d.right_projection, alternate(canon.tree().key_seq(), 1), canon.tree().key_seq()),
    {
        let ghost ks = canon.tree().key_seq();
        proof {
            law_split_join(ks);
            let n = ks.len() as int;
            assert(n * alternate(ks, 1).len() <= n * alternate(ks, 0).len()) by (nonlinear_arith)
                requires
                    n >= 0,
                    alternate(ks, 1).len() <= alternate(ks, 0).len(),
            ;
        }
        let (left_coeff, right_coeff) = canon.into_coeff_tree().split();
        let left = Arc::new(CanonModule::new(left_coeff));
        let right = Arc::new(CanonModule::new(right_coeff));
        Self::sumproduct(&left, &right)
    }

    /// The inclusion of the summand `part` into `sum`.
    fn inclusion(part: &Arc<CanonModule<Fin<N>>>, sum: &Arc<CanonModule<Fin<N>>>, dim: u8) -> (f: CanonToCanon<Fin<N>>)
        requires
            N > 0,
            part.tree().wf(),
            sum.tree().wf(),
            dim == part.tree().key_seq().len(),
            sum.tree().key_seq().len() * part.tree().key_seq().len() <= u8::MAX,
            sum.tree().key_seq().len() <= u8::MAX,
            forall|l: int| 0 <= l < part.tree().key_seq().len() ==> has_key(sum.tree().key_seq(), #[trigger] part.tree().key_seq()[l]),
        ensures
            f.domain() == **part,
            f.codomain() == **sum,
            inclusion_spec(f, part.tree().key_seq(), sum.tree().key_seq()),
    {
        let ghost ps = part.tree().key_seq();
        let ghost ds = sum.tree().key_seq();
        let cols = inclusion_cols(part, sum);
        let ghost flat = cols@.map_values(|c: Vec<Fin<N>>| c@);
        proof {
            let w = ds.len() as int;
            let n = ps.len() as int;
            assert forall|i: int| 0 <= i < flat.len() implies (#[trigger] flat[i]).len() == w by {
                assert(flat[i] == cols@[i]@);
            }
            lemma_flatten_uniform(flat, w);
            vstd::arithmetic::mul::lemma_mul_is_commutative(n, w);
            if n > 0 {
                vstd::arithmetic::div_mod::lemma_div_multiples_vanish(w, n);
            }
        }
        let m = Matrix::from_cols(cols, dim);
        proof {
            let w = ds.len() as int;
            let n = ps.len() as int;
            if n > 0 {
                assert(m.nrows() == w);
                assert forall|k: int| 0 <= k < m.entries().len() implies #[trigger] m.entries()[k] == inclusion_buffer(ds, ps)[k] by {
                    let r = k / n;
                    let l = k % n;
                    vstd::arithmetic::div_mod::lemma_fundamental_div_mod(k, n);
                    lemma_index_bounds(k, n, w);
                    assert(m.entries()[k] == flat.flatten()[l * w + r]);
                    assert(flat.flatten()[l * w + r] == flat[l][r]);
                    assert(flat[l] == cols@[l]@);
                }
                assert(m.entries() =~= inclusion_buffer(ds, ps));
            } else {
                assert(m.entries() =~= inclusion_buffer(ds, ps));
            }
        }
        proof {
            lemma_dims(ds.len() as int, ps.len() as int);
        }
        CanonToCanon::new(share_arc(part), share_arc(sum), m)
    }

    /// The projection of `sum` onto the summand `part`.
    fn projection(part: &Arc<CanonModule<Fin<N>>>, sum: &Arc<CanonModule<Fin<N>>>, dim: u8) -> (f: CanonToCanon<Fin<N>>)
        requires
            N > 0,
            part.tree().wf(),
            dim == part.tree().key_seq().len(),
            sum.tree().key_seq().len() * part.tree().key_seq().len() <= u8::MAX,
        ensures
            f.domain() == **sum,
            f.codomain() == **part,
            projection_spec(f, part.tree().key_seq(), sum.tree().key_seq()),
    {
        let ghost ps = part.tree().key_seq();
        let ghost ds = sum.tree().key_seq();
        let rows = projection_rows(part, sum);
        let ghost flat = rows@.map_values(|c: Vec<Fin<N>>| c@);
        proof {
            let w = ps.len() as int;
            let n = ds.len() as int;
            assert forall|i: int| 0 <= i < flat.len() implies (#[trigger] flat[i]).len() == w by {
                assert(flat[i] == rows@[i]@);
            }
            lemma_flatten_uniform(flat, w);
            if w > 0 {
                vstd::arithmetic::div_mod::lemma_div_multiples_vanish(n, w);
            }
            assert forall|k: int| 0 <= k < flat.flatten().len() implies #[trigger] flat.flatten()[k] == projection_buffer(ds, ps)[k] by {
                let r = k / w;
                let l = k % w;
                vstd::arithmetic::div_mod::lemma_fundamental_div_mod(k, w);
                lemma_index_bounds(k, w, n);
                vstd::arithmetic::mul::lemma_mul_is_commutative(r, w);
                assert(flat.flatten()[r * w + l] == flat[r][l]);
                assert(flat[r] == rows@[r]@);
            }
            assert(flat.flatten() =~= projection_buffer(ds, ps));
        }
        let m = Matrix::from_rows(rows, dim);
        proof {
            lemma_dims(ds.len() as int, ps.len() as int);
        }
        CanonToCanon::new(share_arc(sum), share_arc(part), m)
    }
}

/* # universal morphisms */

/// The representatives of the torsion coefficients of a module.
pub open spec fn raw_coeffs<const N: u16>(m: CanonModule<Fin<N>>) -> Seq<u16> {
    m.coeff_values().map_values(|c: Fin<N>| c.raw() as u16)
}

/// For each coefficient `cs[k]` of the sum, in order, which vector it
/// takes: while `sl` holds the coefficient it is removed and the next left
/// vector taken, `(true, il)`; else while `sr` holds it, the next right
/// vector, `(false, ir)`; else none.
pub open spec fn picks(cs: Seq<u16>, sl: Set<u16>, sr: Set<u16>, il: int, ir: int) -> Seq<(bool, int)>
    decreases cs.len(),
{
    if cs.len() == 0 {
        Seq::empty()
    } else if sl.contains(cs[0]) {
        seq![(true, il)] + picks(cs.drop_first(), sl.remove(cs[0]), sr, il + 1, ir)
    } else if sr.contains(cs[0]) {
        seq![(false, ir)] + picks(cs.drop_first(), sl, sr.remove(cs[0]), il, ir + 1)
    } else {
        picks(cs.drop_first(), sl, sr, il, ir)
    }
}

/// The vectors that the picks take.
pub open spec fn picked<T>(ps: Seq<(bool, int)>, lvs: Seq<Seq<T>>, rvs: Seq<Seq<T>>) -> Seq<Seq<T>> {
    ps.map_values(|p: (bool, int)| if p.0 { lvs[p.1] } else { rvs[p.1] })
}

/// Every pick is a vector that there is.
pub open spec fn picks_in_range(ps: Seq<(bool, int)>, nl: int, nr: int) -> bool {
    forall|t: int| 0 <= t < ps.len() ==> if (#[trigger] ps[t]).0 { 0 <= ps[t].1 < nl } else { 0 <= ps[t].1 < nr }
}

/// The picks for the coefficients of the sum `d`, starting from the sets of
/// the coefficients of the two summands.
pub open spec fn universal_picks<const N: u16>(d: DirectModule<Fin<N>>) -> Seq<(bool, int)> {
    picks(
        raw_coeffs(d.left_inclusion.codomain()),
        raw_coeffs(d.left_inclusion.domain()).to_set(),
        raw_coeffs(d.right_inclusion.domain()).to_set(),
        0,
        0,
    )
}

/// The rows of a matrix, as many as it has.
pub open spec fn row_seqs<T>(m: Matrix<T>) -> Seq<Seq<T>> {
    Seq::new(m.nrows(), |r: int| m.row_seq(r))
}

/// The picks from the front of `cs` on are one step and the picks from the
/// next coefficient on.
proof fn lemma_picks_step(cs: Seq<u16>, k: int, sl: Set<u16>, sr: Set<u16>, il: int, ir: int)
    requires
        0 <= k < cs.len(),
    ensures
        cs.skip(k)[0] == cs[k],
        cs.skip(k).drop_first() == cs.skip(k + 1),
        picks(cs.skip(k), sl, sr, il, ir) == (if sl.contains(cs[k]) {
            seq![(true, il)] + picks(cs.skip(k + 1), sl.remove(cs[k]), sr, il + 1, ir)
        } else if sr.contains(cs[k]) {
            seq![(false, ir)] + picks(cs.skip(k + 1), sl, sr.remove(cs[k]), il, ir + 1)
        } else {
            picks(cs.skip(k + 1), sl, sr, il, ir)
        }),
{
    assert(cs.skip(k).drop_first() =~= cs.skip(k + 1));
}

/// The representatives of the torsion coefficients of a module.
fn raw_coeffs_vec<const N: u16>(m: &CanonModule<Fin<N>>) -> (v: Vec<u16>)
    ensures
        v@ == raw_coeffs(*m),
{
    let cs = m.torsion_coeffs();
    let mut v: Vec<u16> = Vec::new();
    let mut i: usize = 0;
    while i < cs.len()
        invariant
            cs@ == m.coeff_values(),
            i <= cs@.len(),
            v@ == raw_coeffs(*m).take(i as int),
        decreases cs@.len() - i,
    {
        let x = cs[i].get();
        proof {
            assert(raw_coeffs(*m).take(i + 1) =~= raw_coeffs(*m).take(i as int).push(x));
        }
        v.push(x);
        i += 1;
    }
    proof {
        assert(raw_coeffs(*m).take(cs@.len() as int) =~= raw_coeffs(*m));
    }
    v
}

/// The set of the given numbers.
fn set_of(xs: &Vec<u16>) -> (s: BTreeSet<u16>)
    ensures
        s@ == xs@.to_set(),
{
    let mut s: BTreeSet<u16> = BTreeSet::new();
    let mut i: usize = 0;
    while i < xs.len()
        invariant
            i <= xs@.len(),
            s@ == xs@.take(i as int).to_set(),
        decreases xs@.len() - i,
    {
        s.insert(xs[i]);
        proof {
            assert(xs@.take(i + 1) =~= xs@.take(i as int).push(xs@[i as int]));
            xs@.take(i as int).lemma_push_to_set_commute(xs@[i as int]);
        }
        i += 1;
    }
    proof {
        assert(xs@.take(xs@.len() as int) =~= xs@);
    }
    s
}

/// Goes through the coefficients `cs` of a sum and takes, for each, the
/// next of the vectors `lv` while its value is still in the set of the
/// left coefficients `ls` (removing it), else the next of `rv` while it is
/// still in the set of the right coefficients `rs` (removing it).
fn interleave<const N: u16>(
    cs: &Vec<u16>,
    ls: &Vec<u16>,
    rs: &Vec<u16>,
    lv: Vec<Vec<Fin<N>>>,
    rv: Vec<Vec<Fin<N>>>,
) -> (out: Vec<Vec<Fin<N>>>)
    requires
        picks_in_range(picks(cs@, ls@.to_set(), rs@.to_set(), 0, 0), lv@.len() as int, rv@.len() as int),
    ensures
        out@.map_values(|v: Vec<Fin<N>>| v@) == picked(
            picks(cs@, ls@.to_set(), rs@.to_set(), 0, 0),
            lv@.map_values(|v: Vec<Fin<N>>| v@),
            rv@.map_values(|v: Vec<Fin<N>>| v@),
        ),
{
    let ghost all = picks(cs@, ls@.to_set(), rs@.to_set(), 0, 0);
    let ghost lvs = lv@.map_values(|v: Vec<Fin<N>>| v@);
    let ghost rvs = rv@.map_values(|v: Vec<Fin<N>>| v@);
    let mut coeffs_left = set_of(ls);
    let mut coeffs_right = set_of(rs);
    let mut lv = lv;
    let mut rv = rv;
    let ghost mut il: int = 0;
    let ghost mut ir: int = 0;
    let mut out: Vec<Vec<Fin<N>>> = Vec::new();
    let mut k: usize = 0;
    proof {
        assert(cs@.skip(0) =~= cs@);
        assert(lvs.skip(0) =~= lvs);
        assert(rvs.skip(0) =~= rvs);
    }
    while k < cs.len()
        invariant
            k <= cs@.len(),
            picks_in_range(all, lvs.len() as int, rvs.len() as int),
            all == picked_prefix(out@.len() as int, all) + picks(cs@.skip(k as int), coeffs_left@, coeffs_right@, il, ir),
            0 <= il <= lvs.len(),
            0 <= ir <= rvs.len(),
            lv@.map_values(|v: Vec<Fin<N>>| v@) == lvs.skip(il),
            rv@.map_values(|v: Vec<Fin<N>>| v@) == rvs.skip(ir),
            out@.len() <= all.len(),
            forall|t: int|
                0 <= t < out@.len() ==> (#[trigger] out@[t])@ == (if all[t].0 { lvs[all[t].1] } else { rvs[all[t].1] }),
        decreases cs@.len() - k,
    {
        let c = cs[k];
        let ghost left_before = coeffs_left@;
        let ghost right_before = coeffs_right@;
        proof {
            lemma_picks_step(cs@, k as int, coeffs_left@, coeffs_right@, il, ir);
        }
        let ghost n = out@.len() as int;
        if coeffs_left.remove(&c) {
            proof {
                assert(all[n] == (true, il));
                assert(0 <= all[n].1 < lvs.len());
            }
            proof {
                assert(lv@.map_values(|v: Vec<Fin<N>>| v@).len() == lv@.len());
                let rest = picks(cs@.skip(k + 1), coeffs_left@, coeffs_right@, il + 1, ir);
                assert(picked_prefix(n + 1, all) =~= picked_prefix(n, all).push(all[n]));
                assert(all =~= picked_prefix(n + 1, all) + rest);
            }
            let ghost before = lv@;
            let v = lv.remove(0);
            proof {
                assert(before.map_values(|v: Vec<Fin<N>>| v@)[0] == before[0]@);
                assert(v@ == lvs.skip(il)[0]);
                let now = lv@.map_values(|v: Vec<Fin<N>>| v@);
                assert forall|j: int| 0 <= j < lv@.len() implies #[trigger] now[j] == lvs.skip(il + 1)[j] by {
                    assert(lv@[j] == before[j + 1]);
                    assert(before.map_values(|v: Vec<Fin<N>>| v@)[j + 1] == lvs.skip(il)[j + 1]);
                }
                assert(lv@.map_values(|v: Vec<Fin<N>>| v@) =~= lvs.skip(il + 1));
                il = il + 1;
            }
            out.push(v);
        } else if coeffs_right.remove(&c) {
            proof {
                assert(coeffs_left@ =~= left_before);
                assert(all[n] == (false, ir));
                assert(0 <= all[n].1 < rvs.len());
            }
            proof {
                assert(rv@.map_values(|v: Vec<Fin<N>>| v@).len() == rv@.len());
                let rest = picks(cs@.skip(k + 1), coeffs_left@, coeffs_right@, il, ir + 1);
                assert(picked_prefix(n + 1, all) =~= picked_prefix(n, all).push(all[n]));
                assert(all =~= picked_prefix(n + 1, all) + rest);
            }
            let ghost before = rv@;
            let v = rv.remove(0);
            proof {
                assert(before.map_values(|v: Vec<Fin<N>>| v@)[0] == before[0]@);
                assert(v@ == rvs.skip(ir)[0]);
                let now = rv@.map_values(|v: Vec<Fin<N>>| v@);
                assert forall|j: int| 0 <= j < rv@.len() implies #[trigger] now[j] == rvs.skip(ir + 1)[j] by {
                    assert(rv@[j] == before[j + 1]);
                    assert(before.map_values(|v: Vec<Fin<N>>| v@)[j + 1] == rvs.skip(ir)[j + 1]);
                }
                assert(rv@.map_values(|v: Vec<Fin<N>>| v@) =~= rvs.skip(ir + 1));
                ir = ir + 1;
            }
            out.push(v);
        } else {
            proof {
                assert(coeffs_left@ =~= left_before);
                assert(coeffs_right@ =~= right_before);
            }
        }
        k += 1;
    }
    proof {
        assert(cs@.skip(cs@.len() as int) =~= Seq::<u16>::empty());
        assert(out@.map_values(|v: Vec<Fin<N>>| v@) =~= picked(all, lvs, rvs));
    }
    out
}

/// The first `n` picks.
pub open spec fn picked_prefix(n: int, ps: Seq<(bool, int)>) -> Seq<(bool, int)> {
    ps.take(n)
}

/// The rows that the universal morphism into the sum `d` takes from `lp`
/// and `rp`, one after the other.
pub open spec fn universal_buffer<const N: u16>(d: DirectModule<Fin<N>>, lp: Matrix<Fin<N>>, rp: Matrix<Fin<N>>) -> Seq<Fin<N>> {
    picked(universal_picks(d), row_seqs(lp), row_seqs(rp)).flatten()
}

/// The rows of a matrix can be read with offsets in `u8`.
pub open spec fn rows_readable<T>(m: Matrix<T>) -> bool {
    m.nrows() == 0 || (m.nrows() - 1) * m.ncols() <= u8::MAX
}

impl<const N: u16> DirectModule<Fin<N>> {
    /// The vectors of `lv` and `rv` that the coefficients of the sum take,
    /// in the order of its coefficients.
    fn universal_vectors(&self, lv: Vec<Vec<Fin<N>>>, rv: Vec<Vec<Fin<N>>>) -> (out: Vec<Vec<Fin<N>>>)
        requires
            picks_in_range(universal_picks(*self), lv@.len() as int, rv@.len() as int),
        ensures
            out@.map_values(|v: Vec<Fin<N>>| v@) == picked(
                universal_picks(*self),
                lv@.map_values(|v: Vec<Fin<N>>| v@),
                rv@.map_values(|v: Vec<Fin<N>>| v@),
            ),
    {
        let module = self.module();
        let left = self.left();
        let right = self.right();
        let cs = raw_coeffs_vec(&module);
        let ls = raw_coeffs_vec(&left);
        let rs = raw_coeffs_vec(&right);
        interleave(&cs, &ls, &rs, lv, rv)
    }

    /// Given two homomorphisms from one module into the two summands, the
    /// homomorphism from that module into the sum: going through the
    /// coefficients of the sum, each takes the next row of `left_par` while
    /// its value is still among the coefficients of the left summand (and
    /// is then removed from them), else the next row of `right_par` while
    /// it is still among those of the right summand.
    pub fn universal_in(&self, left_par: &CanonToCanon<Fin<N>>, right_par: &CanonToCanon<Fin<N>>) -> (u: CanonToCanon<Fin<N>>)
        requires
            rows_readable(left_par.matrix()),
            rows_readable(right_par.matrix()),
            picks_in_range(universal_picks(*self), left_par.matrix().nrows() as int, right_par.matrix().nrows() as int),
            self.left_inclusion.codomain().coeff_values().len() <= u8::MAX,
            universal_buffer(*self, left_par.matrix(), right_par.matrix()).len() <= u8::MAX,
            new_ok(
                self.left_inclusion.codomain(),
                (if self.left_inclusion.codomain().coeff_values().len() == 0 {
                    0
                } else {
                    universal_buffer(*self, left_par.matrix(), right_par.matrix()).len()
                        / self.left_inclusion.codomain().coeff_values().len()
                }),
            ),
        ensures
            u.domain() == left_par.domain(),
            u.codomain() == self.left_inclusion.codomain(),
            u.matrix().nrows() == self.left_inclusion.codomain().coeff_values().len(),
            u.matrix().ncols() == (if self.left_inclusion.codomain().coeff_values().len() == 0 {
                0
            } else {
                universal_buffer(*self, left_par.matrix(), right_par.matrix()).len()
                    / self.left_inclusion.codomain().coeff_values().len()
            }),
            u.matrix().entries() == reduced_rows(
                universal_buffer(*self, left_par.matrix(), right_par.matrix()),
                u.matrix().ncols() as int,
                self.left_inclusion.codomain().coeff_values(),
            ),
    {
        let rows_left = left_par.rows();
        let rows_right = right_par.rows();
        proof {
            assert(rows_left@.map_values(|v: Vec<Fin<N>>| v@) =~= row_seqs(left_par.matrix()));
            assert(rows_right@.map_values(|v: Vec<Fin<N>>| v@) =~= row_seqs(right_par.matrix()));
        }
        let rows = self.universal_vectors(rows_left, rows_right);
        let module = self.module();
        let dim = module.coeff_tree().len() as u8;
        let m = Matrix::from_rows(rows, dim);
        CanonToCanon::new(left_par.source(), module, m)
    }

    /// Given two homomorphisms from the two summands into one module, the
    /// homomorphism from the sum into that module: going through the
    /// coefficients of the sum, each takes the next row of `left_par` (as
    /// `cols` gives them) while its value is still among the coefficients
    /// of the left summand (and is then removed from them), else the next
    /// row of `right_par` while it is still among those of the right
    /// summand; these are the columns of the result.
    pub fn universal_out(&self, left_par: &CanonToCanon<Fin<N>>, right_par: &CanonToCanon<Fin<N>>) -> (u: CanonToCanon<Fin<N>>)
        requires
            rows_readable(left_par.matrix()),
            rows_readable(right_par.matrix()),
            picks_in_range(universal_picks(*self), left_par.matrix().nrows() as int, right_par.matrix().nrows() as int),
            self.left_inclusion.codomain().coeff_values().len() <= u8::MAX,
            universal_buffer(*self, left_par.matrix(), right_par.matrix()).len() <= u8::MAX,
            transpose_ok(
                universal_buffer(*self, left_par.matrix(), right_par.matrix()).len(),
                (if self.left_inclusion.codomain().coeff_values().len() == 0 {
                    0
                } else {
                    universal_buffer(*self, left_par.matrix(), right_par.matrix()).len()
                        / self.left_inclusion.codomain().coeff_values().len()
                }) as int,
                self.left_inclusion.codomain().coeff_values().len() as int,
            ),
            new_ok(left_par.codomain(), self.left_inclusion.codomain().coeff_values().len()),
        ensures
            u.domain() == self.left_inclusion.codomain(),
            u.codomain() == left_par.codomain(),
            u.matrix().ncols() == self.left_inclusion.codomain().coeff_values().len(),
            u.matrix().nrows() == (if self.left_inclusion.codomain().coeff_values().len() == 0 {
                0
            } else {
                universal_buffer(*self, left_par.matrix(), right_par.matrix()).len()
                    / self.left_inclusion.codomain().coeff_values().len()
            }),
            u.matrix().entries() == reduced_rows(
                transposed(
                    universal_buffer(*self, left_par.matrix(), right_par.matrix()),
                    u.matrix().nrows() as int,
                    u.matrix().ncols() as int,
                ),
                u.matrix().ncols() as int,
                left_par.codomain().coeff_values(),
            ),
    {
        let cols_left = left_par.cols();
        let cols_right = right_par.cols();
        proof {
            assert(cols_left@.map_values(|v: Vec<Fin<N>>| v@) =~= row_seqs(left_par.matrix()));
            assert(cols_right@.map_values(|v: Vec<Fin<N>>| v@) =~= row_seqs(right_par.matrix()));
        }
        let cols = self.universal_vectors(cols_left, cols_right);
        let module = self.module();
        let dim = module.coeff_tree().len() as u8;
        let m = Matrix::from_cols(cols, dim);
        CanonToCanon::new(module, left_par.target(), m)
    }
}

/// `f` is the inclusion of a summand with keys `ps` into a sum with keys
/// `ds`: a column for each key of the summand, a row for each key of the
/// sum (none when the summand has no keys), and the entries of
/// `inclusion_buffer`, each row taken modulo the coefficient of its key.
pub open spec fn inclusion_spec<const N: u16>(f: CanonToCanon<Fin<N>>, ps: Seq<Coeff<Fin<N>>>, ds: Seq<Coeff<Fin<N>>>) -> bool {
    &&& f.matrix().ncols() == ps.len()
    &&& f.matrix().nrows() == (if ps.len() == 0 { 0 } else { ds.len() })
    &&& f.matrix().entries() == reduced_rows(inclusion_buffer(ds, ps), ps.len() as int, f.codomain().coeff_values())
}

/// `f` is the projection of a sum with keys `ds` onto a summand with keys
/// `ps`: the buffer of `projection_buffer` read with a row for each key of
/// the summand, each row taken modulo the coefficient of its key.
pub open spec fn projection_spec<const N: u16>(f: CanonToCanon<Fin<N>>, ps: Seq<Coeff<Fin<N>>>, ds: Seq<Coeff<Fin<N>>>) -> bool {
    &&& f.matrix().nrows() == ps.len()
    &&& f.matrix().ncols() == (if ps.len() == 0 { 0 } else { ds.len() })
    &&& f.matrix().entries() == reduced_rows(
        projection_buffer(ds, ps),
        (if ps.len() == 0 { 0 } else { ds.len() }) as int,
        f.codomain().coeff_values(),
    )
}

/// The dimensions of a sum and a summand whose product fits in `u8`.
proof fn lemma_dims(d: int, p: int)
    requires
        0 <= d,
        0 <= p,
        d * p <= u8::MAX,
    ensures
        p > 0 ==> d <= u8::MAX,
        d > 0 ==> p <= u8::MAX,
        p * d <= u8::MAX,
        p == 0 || (p - 1) * d <= u8::MAX,
        d == 0 || (d - 1) * p <= u8::MAX,
{
    assert(p > 0 ==> d <= d * p) by (nonlinear_arith)
        requires
            d >= 0,
    ;
    assert(d > 0 ==> p <= d * p) by (nonlinear_arith)
        requires
            p >= 0,
    ;
    assert(p * d == d * p) by (nonlinear_arith);
    assert(p == 0 || (p - 1) * d <= d * p) by (nonlinear_arith)
        requires
            d >= 0,
    ;
    assert(d == 0 || (d - 1) * p <= d * p) by (nonlinear_arith)
        requires
            p >= 0,
    ;
}

/// Splitting an index `k < n * w` by `n`.
proof fn lemma_index_bounds(k: int, n: int, w: int)
    requires
        n > 0,
        0 <= k < w * n,
    ensures
        0 <= k / n < w,
        0 <= k % n < n,
{
    vstd::arithmetic::div_mod::lemma_div_pos_is_pos(k, n);
    vstd::arithmetic::div_mod::lemma_mod_bound(k, n);
    vstd::arithmetic::div_mod::lemma_div_is_ordered(k, w * n, n);
    vstd::arithmetic::div_mod::lemma_div_multiples_vanish(w, n);
    if k / n >= w {
        vstd::arithmetic::div_mod::lemma_fundamental_div_mod(k, n);
        assert(n * (k / n) >= n * w) by (nonlinear_arith)
            requires
                n > 0,
                k / n >= w,
        ;
        assert(false);
    }
}

} // verus!
