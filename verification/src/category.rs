//! Categories whose objects are modules in canonical form and whose
//! morphisms are relations between them.
use vstd::prelude::*;
use std::sync::Arc;
use crate::category::relation::Relation;
use crate::rmodule::canon::{CanonModule, saturating_product};
use crate::rmodule::ring::Fin;
use crate::util::matrix::bool_well_shaped;

pub mod relation;

verus! {

/// The number of elements of a module, as the matrices of its relations
/// count them.
pub open spec fn size<const N: u16>(m: CanonModule<Fin<N>>) -> int {
    saturating_product(m.coeff_values().map_values(|c: Fin<N>| c.raw()))
}

/// A module whose relations can be composed: it has between one and sixteen
/// elements, so that the row offsets of their matrices fit in `u8`.
pub open spec fn small<const N: u16>(m: CanonModule<Fin<N>>) -> bool {
    1 <= size(m) <= 16
}

/// Whether `r` is a relation from `a` to `b`: its ends have the
/// coefficients of `a` and `b`, and its matrix has a column for each element
/// of `a`, a row for each element of `b`, and exactly those entries.
pub open spec fn relates<const N: u16>(r: Relation<Fin<N>>, a: CanonModule<Fin<N>>, b: CanonModule<Fin<N>>) -> bool {
    &&& r.source.coeff_values() == a.coeff_values()
    &&& r.target.coeff_values() == b.coeff_values()
    &&& bool_well_shaped(r.matrix)
    &&& r.matrix.ncols() == size(a)
    &&& r.matrix.nrows() == size(b)
}

/// The first position in `objects` of a module with the coefficients `c`,
/// or -1 where there is none.
pub open spec fn position_of<const N: u16>(objects: Seq<Arc<CanonModule<Fin<N>>>>, c: Seq<Fin<N>>) -> int
    decreases objects.len(),
{
    if objects.len() == 0 {
        -1
    } else {
        let p = position_of(objects.drop_last(), c);
        if p >= 0 {
            p
        } else if objects.last().coeff_values() == c {
            objects.len() - 1
        } else {
            -1
        }
    }
}

/// A found position holds a module with the coefficients sought, and none
/// before it does; where there is none, no module has them.
pub proof fn lemma_position_of<const N: u16>(objects: Seq<Arc<CanonModule<Fin<N>>>>, c: Seq<Fin<N>>)
    ensures
        position_of(objects, c) >= 0 ==> {
            &&& position_of(objects, c) < objects.len()
            &&& objects[position_of(objects, c)].coeff_values() == c
            &&& forall|j: int| 0 <= j < position_of(objects, c) ==> (#[trigger] objects[j]).coeff_values() != c
        },
        position_of(objects, c) == -1 ==> forall|j: int| 0 <= j < objects.len() ==> (#[trigger] objects[j]).coeff_values() != c,
        position_of(objects, c) >= -1,
    decreases objects.len(),
{
    if objects.len() > 0 {
        let d = objects.drop_last();
        lemma_position_of(d, c);
        let p = position_of(d, c);
        if p >= 0 {
            assert(objects[p] == d[p]);
            assert forall|j: int| 0 <= j < p implies (#[trigger] objects[j]).coeff_values() != c by {
                assert(objects[j] == d[j]);
            }
        } else {
            assert forall|j: int| 0 <= j < objects.len() - 1 implies (#[trigger] objects[j]).coeff_values() != c by {
                assert(objects[j] == d[j]);
            }
        }
    }
}

/// Positions found in a prefix are positions in the whole list.
proof fn lemma_position_of_prefix<const N: u16>(objects: Seq<Arc<CanonModule<Fin<N>>>>, c: Seq<Fin<N>>, k: int)
    requires
        0 <= k <= objects.len(),
        position_of(objects.take(k), c) >= 0,
    ensures
        position_of(objects, c) == position_of(objects.take(k), c),
    decreases objects.len(),
{
    if k < objects.len() {
        assert(objects.drop_last().take(k) =~= objects.take(k));
        lemma_position_of_prefix(objects.drop_last(), c, k);
    } else {
        assert(objects.take(k) =~= objects);
    }
}

/// The relations between every ordered pair of a list of modules: those
/// from `objects[s]` to `objects[t]` are `hom_sets[s][t]`.
pub struct Container<const N: u16> {
    pub objects: Vec<Arc<CanonModule<Fin<N>>>>,
    pub hom_sets: Vec<Vec<Vec<Relation<Fin<N>>>>>,
}

impl<const N: u16> Container<N> {
    /// A list of relations for every ordered pair of modules.
    pub open spec fn complete(&self) -> bool {
        &&& self.hom_sets@.len() == self.objects@.len()
        &&& forall|s: int| 0 <= s < self.objects@.len() ==> (#[trigger] self.hom_sets@[s])@.len() == self.objects@.len()
    }

    /// A list of relations for every ordered pair of modules, each from the
    /// first module of its pair to the second, all modules small.
    pub open spec fn wf(&self) -> bool {
        &&& self.complete()
        &&& forall|s: int| 0 <= s < self.objects@.len() ==> small(*#[trigger] self.objects@[s])
        &&& forall|s: int, t: int, k: int|
            0 <= s < self.objects@.len() && 0 <= t < self.objects@.len() && 0 <= k < self.hom_sets@[s]@[t]@.len()
                ==> relates(#[trigger] self.hom_sets@[s]@[t]@[k], *self.objects@[s], *self.objects@[t])
    }

    /// The module at position `p`.
    pub open spec fn object(&self, p: int) -> CanonModule<Fin<N>> {
        *self.objects@[p]
    }

    /// The relations from the module at position `s` to the one at `t`.
    pub open spec fn homs(&self, s: int, t: int) -> Seq<Relation<Fin<N>>> {
        self.hom_sets@[s]@[t]@
    }

    /// The modules.
    pub fn objects(self) -> (o: Vec<Arc<CanonModule<Fin<N>>>>)
        ensures
            o@ == self.objects@,
    {
        self.objects
    }

    /// The first position of a module with the coefficients of `m`.
    fn position(&self, m: &CanonModule<Fin<N>>) -> (p: Option<usize>)
        ensures
            match p {
                Some(i) => i == position_of(self.objects@, m.coeff_values()),
                None => position_of(self.objects@, m.coeff_values()) == -1,
            },
    {
        let mut i: usize = 0;
        while i < self.objects.len()
            invariant
                i <= self.objects@.len(),
                position_of(self.objects@.take(i as int), m.coeff_values()) == -1,
            decreases self.objects@.len() - i,
        {
            let o: &CanonModule<Fin<N>> = &self.objects[i];
            proof {
                assert(self.objects@.take(i + 1).drop_last() =~= self.objects@.take(i as int));
            }
            if o.eq(m) {
                proof {
                    lemma_position_of_prefix(self.objects@, m.coeff_values(), i + 1);
                }
                return Some(i);
            }
            i += 1;
        }
        proof {
            assert(self.objects@.take(i as int) =~= self.objects@);
        }
        None
    }

    /// The relations from `source` to `target`, which must both be among the
    /// modules (as far as their coefficients tell).
    pub fn hom_set(&self, source: &CanonModule<Fin<N>>, target: &CanonModule<Fin<N>>) -> (h: &Vec<Relation<Fin<N>>>)
        requires
            self.complete(),
            position_of(self.objects@, source.coeff_values()) >= 0,
            position_of(self.objects@, target.coeff_values()) >= 0,
        ensures
            h@ == self.homs(
                position_of(self.objects@, source.coeff_values()),
                position_of(self.objects@, target.coeff_values()),
            ),
    {
        proof {
            lemma_position_of(self.objects@, source.coeff_values());
            lemma_position_of(self.objects@, target.coeff_values());
        }
        let s = self.position(source).unwrap();
        let t = self.position(target).unwrap();
        &self.hom_sets[s][t]
    }
}

} // verus!
