//! Homomorphisms between finite abelian groups in canonical form, given by
//! the images of the generators.
use vstd::prelude::*;
use std::sync::Arc;
use crate::error::Error;
use crate::util::ident::share_arc;
use crate::util::iterator::{cartesian, first_occurrences, Dedup};
use crate::util::seq::copy_range;
use crate::zmodule::canon::{CanonZModule, Zahl, residues, scaled_mod, scaled_ok, sum_mod, sum_ok};

verus! {

/// The elements of the group with coefficients `cs`: every list of
/// residues, one below each coefficient, the last place changing fastest.
pub open spec fn elements(cs: Seq<Zahl>) -> Seq<Seq<Zahl>> {
    cartesian(cs.map_values(|c: Zahl| residues(c)))
}

/// The number of generators that an evaluation reads: as many as both the
/// images and the element go.
pub open spec fn terms(images: Seq<Seq<Zahl>>, v: Seq<Zahl>) -> nat {
    if images.len() < v.len() {
        images.len()
    } else {
        v.len()
    }
}

/// `v[0]·images[0] + ... + v[n-1]·images[n-1]`, each product and each
/// partial sum taken place by place modulo the coefficients `cs`.
pub open spec fn combination(cs: Seq<Zahl>, images: Seq<Seq<Zahl>>, v: Seq<Zahl>, n: nat) -> Seq<Zahl>
    decreases n,
{
    if n <= 1 {
        scaled_mod(cs, v[0], images[0])
    } else {
        sum_mod(
            cs,
            combination(cs, images, v, (n - 1) as nat),
            scaled_mod(cs, v[n - 1], images[n - 1]),
        )
    }
}

/// Every product and every partial sum of `combination` stays in `u16`, and
/// every coefficient it uses is positive.
pub open spec fn combination_ok(cs: Seq<Zahl>, images: Seq<Seq<Zahl>>, v: Seq<Zahl>, n: nat) -> bool
    decreases n,
{
    if n <= 1 {
        scaled_ok(cs, v[0], images[0])
    } else {
        &&& combination_ok(cs, images, v, (n - 1) as nat)
        &&& scaled_ok(cs, v[n - 1], images[n - 1])
        &&& sum_ok(cs, combination(cs, images, v, (n - 1) as nat), scaled_mod(cs, v[n - 1], images[n - 1]))
    }
}

/// What evaluating at `v` computes: the combination over all the terms.
pub open spec fn evaluation(cs: Seq<Zahl>, images: Seq<Seq<Zahl>>, v: Seq<Zahl>) -> Seq<Zahl> {
    combination(cs, images, v, terms(images, v))
}

/// Evaluating at `v` reads at least one generator and stays in `u16`.
pub open spec fn evaluation_ok(cs: Seq<Zahl>, images: Seq<Seq<Zahl>>, v: Seq<Zahl>) -> bool {
    terms(images, v) > 0 && combination_ok(cs, images, v, terms(images, v))
}

/// Every place of a combination is a residue modulo its coefficient: the
/// value of a combination is an element of the group of `cs`, as far as it
/// goes, and it goes no further than `cs`.
pub proof fn law_combination_in_group(cs: Seq<Zahl>, images: Seq<Seq<Zahl>>, v: Seq<Zahl>, n: nat)
    requires
        combination_ok(cs, images, v, n),
    ensures
        combination(cs, images, v, n).len() <= cs.len(),
        forall|i: int| 0 <= i < combination(cs, images, v, n).len() ==> #[trigger] combination(cs, images, v, n)[i] < cs[i],
{
    let c = combination(cs, images, v, n);
    if n <= 1 {
        assert forall|i: int| 0 <= i < c.len() implies #[trigger] c[i] < cs[i] by {
            let p = images[0][i] * v[0];
            assert(p <= Zahl::MAX && cs[i] > 0);
            let z = p % (cs[i] as int);
            assert(0 <= z < cs[i]);
        }
    } else {
        let prev = combination(cs, images, v, (n - 1) as nat);
        let sc = scaled_mod(cs, v[n - 1], images[n - 1]);
        assert forall|i: int| 0 <= i < c.len() implies #[trigger] c[i] < cs[i] by {
            let p = prev[i] + sc[i];
            assert(p <= Zahl::MAX && cs[i] > 0);
            let z = p % (cs[i] as int);
            assert(0 <= z < cs[i]);
        }
    }
}

/// The value of an evaluation is an element of the source's group: every
/// place is below its coefficient.
pub proof fn law_evaluation_in_group(cs: Seq<Zahl>, images: Seq<Seq<Zahl>>, v: Seq<Zahl>)
    requires
        evaluation_ok(cs, images, v),
    ensures
        evaluation(cs, images, v).len() <= cs.len(),
        forall|i: int| 0 <= i < evaluation(cs, images, v).len() ==> #[trigger] evaluation(cs, images, v)[i] < cs[i],
{
    law_combination_in_group(cs, images, v, terms(images, v));
}

proof fn lemma_combination_ok_prefix(cs: Seq<Zahl>, images: Seq<Seq<Zahl>>, v: Seq<Zahl>, n: nat, k: nat)
    requires
        combination_ok(cs, images, v, n),
        1 <= k <= n,
    ensures
        combination_ok(cs, images, v, k),
    decreases n,
{
    if k < n {
        lemma_combination_ok_prefix(cs, images, v, (n - 1) as nat, k);
    }
}

/// A homomorphism between two groups in canonical form, given by the
/// images of the generators of the source.
#[derive(Debug, PartialEq, Eq)]
pub struct CanonToCanon {
    source: Arc<CanonZModule>,
    target: Arc<CanonZModule>,
    map: Vec<Vec<Zahl>>,
}

impl CanonToCanon {
    /// The source group.
    pub closed spec fn domain(&self) -> CanonZModule {
        *self.source
    }

    /// The target group.
    pub closed spec fn codomain(&self) -> CanonZModule {
        *self.target
    }

    /// The images of the generators.
    pub closed spec fn images(&self) -> Seq<Seq<Zahl>> {
        self.map@.map_values(|v: Vec<Zahl>| v@)
    }

    /// The map with the given images, as they are.
    pub fn new_unchecked(source: Arc<CanonZModule>, target: Arc<CanonZModule>, map: Vec<Vec<Zahl>>) -> (f: Self)
        ensures
            f.domain() == *source,
            f.codomain() == *target,
            f.images() == map@.map_values(|v: Vec<Zahl>| v@),
    {
        Self { source, target, map }
    }

    /// The map with the given images, or `InvalidElement` where one of them
    /// does not have a residue for each coefficient of the target.
    pub fn new(source: Arc<CanonZModule>, target: Arc<CanonZModule>, map: Vec<Vec<Zahl>>) -> (r: Result<Self, Error>)
        ensures
            (forall|k: int| 0 <= k < map@.len() ==> (#[trigger] map@[k])@.len() == target.coeffs().len()) ==> r is Ok
                && r->Ok_0.domain() == *source && r->Ok_0.codomain() == *target && r->Ok_0.images() == map@.map_values(
                |v: Vec<Zahl>| v@,
            ),
            !(forall|k: int| 0 <= k < map@.len() ==> (#[trigger] map@[k])@.len() == target.coeffs().len()) ==> r
                == Err::<Self, Error>(Error::InvalidElement),
    {
        let mut all = true;
        let mut k: usize = 0;
        while k < map.len()
            invariant
                k <= map@.len(),
                all <==> forall|j: int| 0 <= j < k ==> (#[trigger] map@[j])@.len() == target.coeffs().len(),
            decreases map@.len() - k,
        {
            let t: &CanonZModule = &target;
            if !t.is_element(&map[k]) {
                all = false;
            }
            k += 1;
        }
        if all {
            Ok(Self::new_unchecked(source, target, map))
        } else {
            Err(Error::InvalidElement)
        }
    }

    /// The source group, shared.
    pub fn source(&self) -> (m: Arc<CanonZModule>)
        ensures
            *m == self.domain(),
    {
        share_arc(&self.source)
    }

    /// The target group, shared.
    pub fn target(&self) -> (m: Arc<CanonZModule>)
        ensures
            *m == self.codomain(),
    {
        share_arc(&self.target)
    }

    /// The image of `v`: the sum of the images of the generators, each
    /// times its residue in `v`, computed with the coefficients of the
    /// source.
    pub fn evaluate_unchecked(&self, v: &Vec<Zahl>) -> (w: Vec<Zahl>)
        requires
            evaluation_ok(self.domain().coeffs(), self.images(), v@),
        ensures
            w@ == evaluation(self.domain().coeffs(), self.images(), v@),
            w@.len() <= self.domain().coeffs().len(),
            forall|i: int| 0 <= i < w@.len() ==> #[trigger] w@[i] < self.domain().coeffs()[i],
    {
        proof {
            law_evaluation_in_group(self.domain().coeffs(), self.images(), v@);
        }
        let src: &CanonZModule = &self.source;
        let ghost cs = self.domain().coeffs();
        let ghost images = self.images();
        let n: usize = if self.map.len() < v.len() { self.map.len() } else { v.len() };
        proof {
            lemma_combination_ok_prefix(cs, images, v@, n as nat, 1);
        }
        let mut acc = src.mul_by_scalar_unchecked(v[0], &self.map[0]);
        let mut k: usize = 1;
        while k < n
            invariant
                cs == src.coeffs(),
                images == self.images(),
                n == terms(images, v@),
                1 <= k <= n,
                combination_ok(cs, images, v@, n as nat),
                acc@ == combination(cs, images, v@, k as nat),
            decreases n - k,
        {
            proof {
                lemma_combination_ok_prefix(cs, images, v@, n as nat, (k + 1) as nat);
            }
            let term = src.mul_by_scalar_unchecked(v[k], &self.map[k]);
            acc = src.add_unchecked(&acc, &term);
            k += 1;
        }
        acc
    }

    /// The image of `v`, or `InvalidElement` where `v` does not have a
    /// residue for each coefficient of the source.
    pub fn evaluate(&self, v: &Vec<Zahl>) -> (r: Result<Vec<Zahl>, Error>)
        requires
            v@.len() == self.domain().coeffs().len() ==> evaluation_ok(self.domain().coeffs(), self.images(), v@),
        ensures
            v@.len() == self.domain().coeffs().len() ==> r is Ok && r->Ok_0@ == evaluation(
                self.domain().coeffs(),
                self.images(),
                v@,
            ),
            v@.len() != self.domain().coeffs().len() ==> r == Err::<Vec<Zahl>, Error>(Error::InvalidElement),
    {
        let src: &CanonZModule = &self.source;
        if src.is_element(v) {
            Ok(self.evaluate_unchecked(v))
        } else {
            Err(Error::InvalidElement)
        }
    }
    /// The distinct images of the elements of the source, in the order in
    /// which they first come as the elements run with the last place
    /// changing fastest.
    pub fn image(&self) -> (im: Vec<Vec<Zahl>>)
        requires
            forall|e: Seq<Zahl>|
                #[trigger] elements(self.domain().coeffs()).contains(e)
                    ==> evaluation_ok(self.domain().coeffs(), self.images(), e),
        ensures
            im@.map_values(|v: Vec<Zahl>| v@) == first_occurrences(
                elements(self.domain().coeffs()).map_values(
                    |e: Seq<Zahl>| evaluation(self.domain().coeffs(), self.images(), e),
                ),
            ),
    {
        let src: &CanonZModule = &self.source;
        let ghost cs = self.domain().coeffs();
        let ghost els = elements(cs);
        let all = src.all_elements();
        let mut im: Vec<Vec<Zahl>> = Vec::new();
        let mut i: usize = 0;
        while i < all.len()
            invariant
                cs == self.domain().coeffs(),
                all@.map_values(|v: Vec<Zahl>| v@) == els,
                forall|e: Seq<Zahl>| #[trigger] els.contains(e) ==> evaluation_ok(cs, self.images(), e),
                i <= all@.len(),
                im@.map_values(|v: Vec<Zahl>| v@) == els.take(i as int).map_values(
                    |e: Seq<Zahl>| evaluation(cs, self.images(), e),
                ),
            decreases all@.len() - i,
        {
            proof {
                assert(els[i as int] == all@[i as int]@);
                assert(els.contains(all@[i as int]@));
            }
            let w = self.evaluate_unchecked(&all[i]);
            let ghost before = im@.map_values(|v: Vec<Zahl>| v@);
            im.push(w);
            proof {
                assert(im@.map_values(|v: Vec<Zahl>| v@) =~= before.push(w@));
                assert(els.take(i + 1).map_values(|e: Seq<Zahl>| evaluation(cs, self.images(), e))
                    =~= els.take(i as int).map_values(|e: Seq<Zahl>| evaluation(cs, self.images(), e)).push(w@));
            }
            i += 1;
        }
        proof {
            assert(els.take(i as int) =~= els);
        }
        im.clear_duplicates();
        im
    }

    /// `other` after `self`: the generators of the source of `self` go to
    /// their images under `self`, evaluated by `other`.
    pub fn compose_unchecked(&self, other: &Self) -> (g: Self)
        requires
            forall|k: int|
                0 <= k < self.images().len() ==> evaluation_ok(
                    other.domain().coeffs(),
                    other.images(),
                    #[trigger] self.images()[k],
                ),
        ensures
            g.domain() == self.domain(),
            g.codomain() == other.codomain(),
            g.images() == self.images().map_values(
                |e: Seq<Zahl>| evaluation(other.domain().coeffs(), other.images(), e),
            ),
    {
        let ghost images = self.images();
        let mut map: Vec<Vec<Zahl>> = Vec::new();
        let mut k: usize = 0;
        while k < self.map.len()
            invariant
                images == self.images(),
                forall|j: int|
                    0 <= j < images.len() ==> evaluation_ok(other.domain().coeffs(), other.images(), #[trigger] images[j]),
                k <= images.len(),
                map@.map_values(|v: Vec<Zahl>| v@) == images.take(k as int).map_values(
                    |e: Seq<Zahl>| evaluation(other.domain().coeffs(), other.images(), e),
                ),
            decreases images.len() - k,
        {
            proof {
                assert(images[k as int] == self.map@[k as int]@);
            }
            let w = other.evaluate_unchecked(&self.map[k]);
            let ghost before = map@.map_values(|v: Vec<Zahl>| v@);
            map.push(w);
            proof {
                assert(map@.map_values(|v: Vec<Zahl>| v@) =~= before.push(w@));
                assert(images.take(k + 1).map_values(|e: Seq<Zahl>| evaluation(other.domain().coeffs(), other.images(), e))
                    =~= images.take(k as int).map_values(
                    |e: Seq<Zahl>| evaluation(other.domain().coeffs(), other.images(), e),
                ).push(w@));
            }
            k += 1;
        }
        proof {
            assert(images.take(k as int) =~= images);
        }
        Self::new_unchecked(share_arc(&self.source), share_arc(&other.target), map)
    }
}

} // verus!
