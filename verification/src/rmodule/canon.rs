//! Modules in canonical form: a direct sum of cyclic modules, one for each
//! key of a tree of torsion coefficients.
use vstd::prelude::*;
use crate::rmodule::ring::Fin;
use crate::rmodule::torsion::{Coeff, CoeffTree};
use crate::util::order::Ranked;
use crate::util::number::versor;

verus! {

/// The direct sum of the cyclic modules given by the coefficients of a tree.
#[derive(Clone, Debug)]
pub struct CanonModule<R> {
    torsion_coeff: CoeffTree<R, ()>,
}

impl<R: Ranked> CanonModule<R> {
    /// The tree of torsion coefficients.
    pub closed spec fn tree(&self) -> CoeffTree<R, ()> {
        self.torsion_coeff
    }

    /// The torsion coefficients, in the order of the tree.
    pub open spec fn coeff_values(&self) -> Seq<R> {
        self.tree().key_seq().map_values(|k: Coeff<R>| k.value())
    }

    /// The module of the given tree of torsion coefficients.
    pub fn new(torsion_coeff: CoeffTree<R, ()>) -> (m: Self)
        ensures
            m.tree() == torsion_coeff,
    {
        Self { torsion_coeff }
    }

    /// The torsion coefficients, in order.
    pub fn torsion_coeffs(&self) -> (v: Vec<R>)
        ensures
            v@ == self.coeff_values(),
    {
        self.torsion_coeff.coeffs()
    }

    pub fn coeff_tree(&self) -> (t: &CoeffTree<R, ()>)
        ensures
            *t == self.tree(),
    {
        &self.torsion_coeff
    }

    pub fn into_coeff_tree(self) -> (t: CoeffTree<R, ()>)
        ensures
            t == self.tree(),
    {
        self.torsion_coeff
    }
}

/// Two modules are equal when their torsion coefficients agree, whatever the
/// identifiers of the keys.
impl<R: Ranked> PartialEq for CanonModule<R> {
    fn eq(&self, other: &Self) -> (b: bool) {
        let a = self.torsion_coeff.coeffs();
        let c = other.torsion_coeff.coeffs();
        if a.len() != c.len() {
            return false;
        }
        let mut i: usize = 0;
        while i < a.len()
            invariant
                a@ == self.coeff_values(),
                c@ == other.coeff_values(),
                a@.len() == c@.len(),
                i <= a@.len(),
                forall|k: int| 0 <= k < i ==> a@[k] == c@[k],
            decreases a@.len() - i,
        {
            if !a[i].rank_eq(&c[i]) {
                return false;
            }
            proof {
                R::lemma_rank_injective(a@[i as int], c@[i as int]);
            }
            i = i + 1;
        }
        proof {
            assert(a@ =~= c@);
        }
        true
    }
}

impl<R: Ranked> Eq for CanonModule<R> {}

impl<R: Ranked> vstd::std_specs::cmp::PartialEqSpecImpl for CanonModule<R> {
    open spec fn obeys_eq_spec() -> bool {
        true
    }

    open spec fn eq_spec(&self, other: &Self) -> bool {
        self.coeff_values() == other.coeff_values()
    }
}

/// The product of the integers of `xs`, saturating at `usize::MAX` after
/// every step.
pub open spec fn saturating_product(xs: Seq<int>) -> int
    decreases xs.len(),
{
    if xs.len() == 0 {
        1
    } else {
        let p = saturating_product(xs.drop_last()) * xs.last();
        if p > usize::MAX {
            usize::MAX as int
        } else {
            p
        }
    }
}

proof fn lemma_saturating_product_range(xs: Seq<int>)
    requires
        forall|i: int| 0 <= i < xs.len() ==> xs[i] >= 0,
    ensures
        0 <= saturating_product(xs) <= usize::MAX,
    decreases xs.len(),
{
    if xs.len() > 0 {
        lemma_saturating_product_range(xs.drop_last());
        let q = saturating_product(xs.drop_last());
        assert(q * xs.last() >= 0) by (nonlinear_arith)
            requires
                q >= 0,
                xs.last() >= 0,
        ;
    }
}

impl<const N: u16> CanonModule<Fin<N>> {
    /// The number of elements: the product of the representatives of the
    /// torsion coefficients, saturating at `usize::MAX`.
    pub fn cardinality(&self) -> (n: usize)
        ensures
            n == saturating_product(self.coeff_values().map_values(|c: Fin<N>| c.raw())),
    {
        let cs = self.torsion_coeff.coeffs();
        let ghost xs = self.coeff_values().map_values(|c: Fin<N>| c.raw());
        let mut acc: usize = 1;
        let mut i: usize = 0;
        while i < cs.len()
            invariant
                cs@ == self.coeff_values(),
                xs == self.coeff_values().map_values(|c: Fin<N>| c.raw()),
                i <= cs@.len(),
                forall|k: int| 0 <= k < i ==> #[trigger] xs[k] >= 1,
                acc == saturating_product(xs.take(i as int)),
            decreases cs@.len() - i,
        {
            let next = cs[i].get() as usize;
            proof {
                assert(xs.take(i + 1).drop_last() =~= xs.take(i as int));
                assert forall|k: int| 0 <= k < xs.take(i as int).len() implies xs.take(i as int)[k] >= 0 by {
                    assert(xs.take(i as int)[k] == xs[k]);
                }
                lemma_saturating_product_range(xs.take(i as int));
                assert(xs[i as int] == next);
            }
            if next != 0 && acc > usize::MAX / next {
                proof {
                    assert(acc * next > usize::MAX) by (nonlinear_arith)
                        requires
                            next > 0,
                            acc > usize::MAX / next,
                    ;
                }
                acc = usize::MAX;
            } else {
                proof {
                    if next > 0 {
                        assert(acc * next <= usize::MAX) by (nonlinear_arith)
                            requires
                                next > 0,
                                acc <= usize::MAX / next,
                        ;
                    }
                }
                acc = acc * next;
            }
            i = i + 1;
        }
        proof {
            assert(xs.take(xs.len() as int) =~= xs);
        }
        acc
    }
}

/// One where `b` holds, zero elsewhere.
pub open spec fn indicator<const N: u16>(b: bool) -> Fin<N> {
    if b {
        Fin::from_int(1)
    } else {
        Fin::from_int(0)
    }
}

/// The vector of `length` entries with a one at `index` and zeros elsewhere.
pub(crate) fn fin_versor<const N: u16>(index: usize, length: usize) -> (v: Vec<Fin<N>>)
    requires
        N > 0,
    ensures
        v@.len() == length,
        forall|i: int| 0 <= i < length ==> #[trigger] v@[i] == indicator::<N>(i == index),
{
    let units = versor(index, length);
    let mut v: Vec<Fin<N>> = Vec::new();
    let mut i: usize = 0;
    while i < length
        invariant
            N > 0,
            units@.len() == length,
            forall|k: int| 0 <= k < length ==> #[trigger] units@[k] == (if k == index { 1u16 } else { 0u16 }),
            i <= length,
            v@.len() == i,
            forall|k: int| 0 <= k < i ==> #[trigger] v@[k] == indicator::<N>(k == index),
        decreases length - i,
    {
        v.push(Fin::new(units[i]));
        i += 1;
    }
    v
}

impl<const N: u16> CanonModule<Fin<N>> {
    /// The generators: for each key, the element with a one at that key
    /// and zeros elsewhere.
    pub fn generators(&self) -> (g: Vec<CoeffTree<Fin<N>, Fin<N>>>)
        requires
            N > 0,
            self.tree().wf(),
        ensures
            g@.len() == self.tree().key_seq().len(),
            forall|i: int|
                0 <= i < g@.len() ==> {
                    &&& (#[trigger] g@[i]).wf()
                    &&& g@[i].key_seq() == self.tree().key_seq()
                    &&& g@[i].value_seq() == Seq::new(self.tree().key_seq().len(), |j: int| indicator::<N>(j == i))
                },
    {
        let n = self.torsion_coeff.len();
        let mut g: Vec<CoeffTree<Fin<N>, Fin<N>>> = Vec::new();
        let mut i: usize = 0;
        while i < n
            invariant
                N > 0,
                self.tree().wf(),
                n == self.tree().key_seq().len(),
                i <= n,
                g@.len() == i,
                forall|k: int|
                    0 <= k < i ==> {
                        &&& (#[trigger] g@[k]).wf()
                        &&& g@[k].key_seq() == self.tree().key_seq()
                        &&& g@[k].value_seq() == Seq::new(self.tree().key_seq().len(), |j: int| indicator::<N>(j == k))
                    },
            decreases n - i,
        {
            let values = fin_versor(i, n);
            let element = self.torsion_coeff.with_values(values);
            proof {
                assert(element.value_seq() =~= Seq::new(self.tree().key_seq().len(), |j: int| indicator::<N>(j == i)));
            }
            g.push(element);
            i = i + 1;
        }
        g
    }
}

} // verus!
