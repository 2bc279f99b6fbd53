//! Sizes and strides of the relations between two modules in canonical form.
use vstd::prelude::*;
use std::marker::PhantomData;
use crate::rmodule::canon::{CanonModule, saturating_product};
use crate::rmodule::direct::DirectModule;
use crate::rmodule::ring::Fin;
use crate::Int;

verus! {

/// The product of the integers of `xs`.
pub open spec fn product_of(xs: Seq<int>) -> int
    decreases xs.len(),
{
    if xs.len() == 0 {
        1
    } else {
        product_of(xs.drop_last()) * xs.last()
    }
}

/// The prefix products of `xs`: the `k`-th is the product of the first `k + 1`.
pub open spec fn prefix_products(xs: Seq<int>) -> Seq<int> {
    Seq::new(xs.len(), |k: int| product_of(xs.take(k + 1)))
}

/// The representatives of the torsion coefficients of a module.
pub open spec fn coeff_reps<const N: u16>(m: CanonModule<Fin<N>>) -> Seq<int> {
    m.coeff_values().map_values(|c: Fin<N>| c.raw())
}

/// One, then the representatives of `left`, then those of `right`.
pub open spec fn one_left_right<const N: u16>(left: CanonModule<Fin<N>>, right: CanonModule<Fin<N>>) -> Seq<int> {
    seq![1int] + coeff_reps(left) + coeff_reps(right)
}

/// The product of a prefix of positive integers is positive and at most
/// the whole product.
pub proof fn lemma_product_monotone(xs: Seq<int>, k: int)
    requires
        0 <= k <= xs.len(),
        forall|i: int| 0 <= i < xs.len() ==> xs[i] >= 1,
    ensures
        1 <= product_of(xs.take(k)) <= product_of(xs),
    decreases xs.len() - k,
{
    if k == xs.len() {
        assert(xs.take(k) =~= xs);
        lemma_product_positive(xs);
    } else {
        lemma_product_monotone(xs, k + 1);
        assert(xs.take(k + 1).drop_last() =~= xs.take(k));
        let p = product_of(xs.take(k));
        lemma_product_positive(xs.take(k));
        assert(p <= p * xs[k]) by (nonlinear_arith)
            requires
                p >= 1,
                xs[k] >= 1,
        ;
    }
}

/// A product of positive integers is positive.
pub proof fn lemma_product_positive(xs: Seq<int>)
    requires
        forall|i: int| 0 <= i < xs.len() ==> xs[i] >= 1,
    ensures
        product_of(xs) >= 1,
    decreases xs.len(),
{
    if xs.len() > 0 {
        lemma_product_positive(xs.drop_last());
        let p = product_of(xs.drop_last());
        assert(p * xs.last() >= 1) by (nonlinear_arith)
            requires
                p >= 1,
                xs.last() >= 1,
        ;
    }
}

/// The sizes that index the relations from one module to another.
#[derive(Debug)]
pub struct HelperData<R> {
    pub indices: Vec<Int>,
    pub torsion_coeffs_vec: Vec<Int>,
    pub rows: Int,
    pub cols: Int,
    pub capacity: Int,
    pub super_ring: PhantomData<R>,
}

/// The product of the representatives of the torsion coefficients.
pub open spec fn edge_len_of<const N: u16>(m: CanonModule<Fin<N>>) -> int {
    product_of(coeff_reps(m))
}

impl<const N: u16> HelperData<Fin<N>> {
    /// The sizes for the relations from the left summand of `direct` to its
    /// right summand.
    pub fn new(direct: &DirectModule<Fin<N>>) -> (h: Self)
        requires
            edge_len_of(direct.left_inclusion.domain()) * edge_len_of(direct.right_inclusion.domain()) <= u16::MAX,
        ensures
            h.rows == edge_len_of(direct.right_inclusion.domain()),
            h.cols == edge_len_of(direct.left_inclusion.domain()),
            h.capacity == h.rows * h.cols,
            h.indices@.map_values(|x: Int| x as int) == prefix_products(
                one_left_right(direct.left_inclusion.domain(), direct.right_inclusion.domain()).drop_last(),
            ),
            h.torsion_coeffs_vec@.map_values(|x: Int| x as int) == coeff_reps(direct.left_inclusion.domain()) + coeff_reps(
                direct.right_inclusion.domain(),
            ),
    {
        let left = direct.left();
        let right = direct.right();
        let source: &CanonModule<Fin<N>> = &left;
        let target: &CanonModule<Fin<N>> = &right;
        // The representatives are all positive, so every partial product is
        // bounded by the whole.
        let source_reps = Self::reps(source);
        let target_reps = Self::reps(target);
        proof {
            let a = one_left_right(*source, *target);
            lemma_product_one_left_right(*source, *target);
            assert forall|i: int| 0 <= i < coeff_reps(*source).len() implies coeff_reps(*source)[i] >= 1 by {
                assert(coeff_reps(*source)[i] == source_reps@[i] as int);
            }
            assert forall|i: int| 0 <= i < coeff_reps(*target).len() implies coeff_reps(*target)[i] >= 1 by {
                assert(coeff_reps(*target)[i] == target_reps@[i] as int);
            }
            lemma_product_positive(coeff_reps(*source));
            lemma_product_positive(coeff_reps(*target));
            let ps = edge_len_of(*source);
            let pt = edge_len_of(*target);
            assert(ps <= ps * pt && pt <= ps * pt) by (nonlinear_arith)
                requires
                    ps >= 1,
                    pt >= 1,
            ;
            assert forall|i: int| 0 <= i < a.len() implies a[i] >= 1 by {
                if i > 0 && i < 1 + coeff_reps(*source).len() {
                    assert(a[i] == coeff_reps(*source)[i - 1]);
                } else if i > 0 {
                    assert(a[i] == coeff_reps(*target)[i - 1 - coeff_reps(*source).len()]);
                }
            }
            lemma_product_monotone(a, a.len() - 1);
            assert(a.take(a.len() - 1) =~= a.drop_last());
        }
        let rows = Self::edge_len(target);
        let cols = Self::edge_len(source);
        assert(rows * cols == cols * rows) by (nonlinear_arith);
        HelperData {
            indices: Self::indices(source, target),
            torsion_coeffs_vec: Self::torsion_coeffs_vec(source, target),
            rows,
            cols,
            capacity: rows * cols,
            super_ring: PhantomData,
        }
    }

    /// The representatives of the torsion coefficients, all at least one.
    pub(crate) fn reps(m: &CanonModule<Fin<N>>) -> (v: Vec<Int>)
        ensures
            v@.map_values(|x: Int| x as int) == coeff_reps(*m),
            forall|i: int| 0 <= i < v@.len() ==> v@[i] >= 1,
    {
        let cs = m.torsion_coeffs();
        let mut v: Vec<Int> = Vec::new();
        let mut i: usize = 0;
        while i < cs.len()
            invariant
                cs@ == m.coeff_values(),
                i <= cs@.len(),
                v@.len() == i,
                forall|k: int| 0 <= k < i ==> v@[k] as int == cs@[k].raw() && v@[k] >= 1,
            decreases cs@.len() - i,
        {
            v.push(cs[i].get());
            i = i + 1;
        }
        assert(v@.map_values(|x: Int| x as int) =~= coeff_reps(*m));
        v
    }

    /// The product of the representatives of the torsion coefficients of a
    /// module: the number of its elements.
    pub fn edge_len(object: &CanonModule<Fin<N>>) -> (c: Int)
        requires
            edge_len_of(*object) <= u16::MAX,
        ensures
            c == edge_len_of(*object),
    {
        let xs = Self::reps(object);
        let ghost s = coeff_reps(*object);
        let mut p: Int = 1;
        let mut i: usize = 0;
        while i < xs.len()
            invariant
                xs@.map_values(|x: Int| x as int) == s,
                forall|k: int| 0 <= k < xs@.len() ==> xs@[k] >= 1,
                product_of(s) <= u16::MAX,
                i <= xs@.len(),
                p == product_of(s.take(i as int)),
            decreases xs@.len() - i,
        {
            proof {
                assert(s.take(i + 1).drop_last() =~= s.take(i as int));
                assert forall|k: int| 0 <= k < s.len() implies s[k] >= 1 by {
                    assert(s[k] == xs@[k] as int);
                }
                lemma_product_monotone(s, i + 1);
            }
            p = p * xs[i];
            i = i + 1;
        }
        proof {
            assert(s.take(s.len() as int) =~= s);
        }
        p
    }

    /// One, then the representatives of `left`, then those of `right`.
    fn one_left_right_vec(left: &CanonModule<Fin<N>>, right: &CanonModule<Fin<N>>) -> (v: Vec<Int>)
        ensures
            v@.map_values(|x: Int| x as int) == one_left_right(*left, *right),
            forall|k: int| 0 <= k < v@.len() ==> v@[k] >= 1,
    {
        let mut v: Vec<Int> = Vec::new();
        v.push(1);
        let mut l = Self::reps(left);
        let mut r = Self::reps(right);
        let ghost vl = l@;
        let ghost vr = r@;
        v.append(&mut l);
        v.append(&mut r);
        proof {
            assert(v@ == seq![1u16] + vl + vr);
            assert(v@.map_values(|x: Int| x as int) =~= one_left_right(*left, *right));
        }
        v
    }

    /// The products of the first one, two, ... entries of one, then the
    /// representatives of `source`, then those of `target`, the last entry
    /// left out.
    pub fn indices(source: &CanonModule<Fin<N>>, target: &CanonModule<Fin<N>>) -> (v: Vec<Int>)
        requires
            product_of(one_left_right(*source, *target).drop_last()) <= u16::MAX,
        ensures
            v@.map_values(|x: Int| x as int) == prefix_products(one_left_right(*source, *target).drop_last()),
    {
        let mut xs = Self::one_left_right_vec(source, target);
        xs.pop();
        let ghost s = one_left_right(*source, *target).drop_last();
        proof {
            assert(xs@.map_values(|x: Int| x as int) =~= s);
        }
        let mut out: Vec<Int> = Vec::new();
        let mut p: Int = 1;
        let mut i: usize = 0;
        while i < xs.len()
            invariant
                xs@.map_values(|x: Int| x as int) == s,
                forall|k: int| 0 <= k < xs@.len() ==> xs@[k] >= 1,
                product_of(s) <= u16::MAX,
                i <= xs@.len(),
                p == product_of(s.take(i as int)),
                out@.len() == i,
                forall|k: int| 0 <= k < i ==> out@[k] as int == #[trigger] prefix_products(s)[k],
            decreases xs@.len() - i,
        {
            proof {
                assert(s.take(i + 1).drop_last() =~= s.take(i as int));
                assert forall|k: int| 0 <= k < s.len() implies s[k] >= 1 by {
                    assert(s[k] == xs@[k] as int);
                }
                lemma_product_monotone(s, i + 1);
            }
            p = p * xs[i];
            out.push(p);
            i = i + 1;
        }
        proof {
            assert(out@.map_values(|x: Int| x as int) =~= prefix_products(s));
        }
        out
    }

    /// The representatives of the torsion coefficients of `source`, then
    /// those of `target`.
    pub fn torsion_coeffs_vec(source: &CanonModule<Fin<N>>, target: &CanonModule<Fin<N>>) -> (v: Vec<Int>)
        ensures
            v@.map_values(|x: Int| x as int) == coeff_reps(*source) + coeff_reps(*target),
    {
        let mut l = Self::reps(source);
        let mut r = Self::reps(target);
        let ghost vl = l@;
        let ghost vr = r@;
        l.append(&mut r);
        proof {
            assert(l@ == vl + vr);
            assert(l@.map_values(|x: Int| x as int) =~= coeff_reps(*source) + coeff_reps(*target));
        }
        l
    }
}

/// The product of one, then the representatives of `left`, then those of
/// `right`, is the product of the two edge lengths.
proof fn lemma_product_one_left_right<const N: u16>(left: CanonModule<Fin<N>>, right: CanonModule<Fin<N>>)
    ensures
        product_of(one_left_right(left, right)) == edge_len_of(left) * edge_len_of(right),
{
    lemma_product_append(seq![1int] + coeff_reps(left), coeff_reps(right));
    lemma_product_append(seq![1int], coeff_reps(left));
    assert(seq![1int].drop_last() =~= Seq::<int>::empty());
    assert(product_of(Seq::<int>::empty()) == 1);
    assert(seq![1int].last() == 1);
    assert(product_of(seq![1int]) == 1);
}

/// The edge length of a module is its number of elements: where the product
/// of the representatives of its torsion coefficients fits in a `usize`,
/// `cardinality` computes it without saturating.
pub proof fn law_edge_len_is_cardinality<const N: u16>(m: CanonModule<Fin<N>>)
    requires
        forall|i: int| 0 <= i < m.coeff_values().len() ==> (#[trigger] m.coeff_values()[i]).wf(),
        edge_len_of(m) <= usize::MAX,
    ensures
        saturating_product(coeff_reps(m)) == edge_len_of(m),
{
    assert forall|i: int| 0 <= i < coeff_reps(m).len() implies coeff_reps(m)[i] >= 1 by {
        m.coeff_values()[i].lemma_wf();
    }
    lemma_saturating_product_exact(coeff_reps(m));
}

proof fn lemma_saturating_product_exact(xs: Seq<int>)
    requires
        forall|i: int| 0 <= i < xs.len() ==> xs[i] >= 1,
        product_of(xs) <= usize::MAX,
    ensures
        saturating_product(xs) == product_of(xs),
    decreases xs.len(),
{
    if xs.len() > 0 {
        let init = xs.drop_last();
        lemma_product_positive(init);
        let p = product_of(init);
        assert(p <= p * xs.last()) by (nonlinear_arith)
            requires
                p >= 1,
                xs.last() >= 1,
        ;
        lemma_saturating_product_exact(init);
    }
}

/// The product of two lists one after the other.
proof fn lemma_product_append(a: Seq<int>, b: Seq<int>)
    ensures
        product_of(a + b) == product_of(a) * product_of(b),
    decreases b.len(),
{
    if b.len() == 0 {
        assert(a + b =~= a);
    } else {
        lemma_product_append(a, b.drop_last());
        assert((a + b).drop_last() =~= a + b.drop_last());
        let pa = product_of(a);
        let pb = product_of(b.drop_last());
        assert(pa * pb * b.last() == pa * (pb * b.last())) by (nonlinear_arith);
    }
}

} // verus!
