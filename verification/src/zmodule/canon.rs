//! Finite abelian groups in canonical form: a list of torsion coefficients,
//! whose elements are lists of residues, one for each coefficient.
use vstd::prelude::*;
use std::collections::HashMap;
use crate::error::Error;
use crate::util::iterator::{cartesian, multi_cartesian, power_seqs, product};
use crate::util::number::{are_coprime, divisors, lemma_gcd_commutative, spec_divisors, spec_gcd, versor};
use crate::Int;
use crate::util::seq::copy_range;

verus! {

broadcast use vstd::std_specs::hash::group_hash_axioms, vstd::seq_lib::to_multiset_insert;

pub type Zahl = Int;

/// The torsion coefficients of a group, in order.
pub type TorsionCoeff = Vec<Zahl>;

/* # torsion coefficients */

/// The positive divisors of `n`, in increasing order.
pub open spec fn divisor_seq(n: Zahl) -> Seq<Zahl> {
    spec_divisors(n as int).map_values(|d: int| d as Zahl)
}

/// The lists of `dimension` divisors of `base`, the last place changing
/// fastest.
fn all_torsion_coeffs_fixed_dim(base: Zahl, dimension: Zahl) -> (r: Vec<TorsionCoeff>)
    ensures
        r@.map_values(|v: TorsionCoeff| v@) == power_seqs(divisor_seq(base), dimension as nat),
{
    let divs = divisors(base);
    proof {
        assert forall|i: int| 0 <= i < divs@.len() implies #[trigger] divs@[i] == divisor_seq(base)[i] by {
            assert(divs@.map_values(|z: u16| z as int)[i] == divs@[i] as int);
        }
        assert(divs@ =~= divisor_seq(base));
    }
    product(divs, dimension)
}

/// For each dimension from one to `max_dimension`, the lists of that many
/// divisors of `base`.
pub fn all_torsion_coeffs(base: Zahl, max_dimension: Zahl) -> (m: HashMap<Zahl, Vec<TorsionCoeff>>)
    requires
        max_dimension < Zahl::MAX,
    ensures
        forall|d: Zahl| m@.contains_key(d) <==> 1 <= d <= max_dimension,
        forall|d: Zahl|
            1 <= d <= max_dimension ==> (#[trigger] m@[d])@.map_values(|v: TorsionCoeff| v@) == power_seqs(
                divisor_seq(base),
                d as nat,
            ),
{
    let mut m: HashMap<Zahl, Vec<TorsionCoeff>> = HashMap::new();
    let mut d: Zahl = 1;
    while d < max_dimension + 1
        invariant
            max_dimension < Zahl::MAX,
            1 <= d <= max_dimension + 1,
            forall|e: Zahl| m@.contains_key(e) <==> 1 <= e < d,
            forall|e: Zahl|
                1 <= e < d ==> (#[trigger] m@[e])@.map_values(|v: TorsionCoeff| v@) == power_seqs(divisor_seq(base), e as nat),
        decreases max_dimension + 1 - d,
    {
        let coeffs = all_torsion_coeffs_fixed_dim(base, d);
        m.insert(d, coeffs);
        d = d + 1;
    }
    m
}

/// Whether `x` is coprime to every member of `class`.
pub open spec fn coprime_to_all(x: Zahl, class: Seq<Zahl>) -> bool {
    forall|j: int| 0 <= j < class.len() ==> spec_gcd(x as nat, #[trigger] class[j] as nat) == 1
}

/// The first class all of whose members are coprime to `x`.
pub open spec fn first_fit(classes: Seq<Seq<Zahl>>, x: Zahl) -> Option<int>
    decreases classes.len(),
{
    if classes.len() == 0 {
        None
    } else if coprime_to_all(x, classes[0]) {
        Some(0)
    } else {
        match first_fit(classes.drop_first(), x) {
            Some(i) => Some(i + 1),
            None => None,
        }
    }
}

/// `x` joins the first class all of whose members are coprime to it, or
/// starts a class of its own after the others.
pub open spec fn place(classes: Seq<Seq<Zahl>>, x: Zahl) -> Seq<Seq<Zahl>> {
    match first_fit(classes, x) {
        Some(i) => classes.update(i, classes[i].push(x)),
        None => classes.push(seq![x]),
    }
}

/// The classes of pairwise coprime coefficients: the coefficients are
/// placed from the last to the first.
pub open spec fn coprime_classes(xs: Seq<Zahl>) -> Seq<Seq<Zahl>>
    decreases xs.len(),
{
    if xs.len() == 0 {
        Seq::empty()
    } else {
        place(coprime_classes(xs.drop_first()), xs[0])
    }
}

/// The product of the members of a class, multiplied from the first.
pub open spec fn class_product(c: Seq<Zahl>) -> int
    decreases c.len(),
{
    if c.len() == 0 {
        1
    } else {
        class_product(c.drop_last()) * c.last()
    }
}

/// The product of each class.
pub open spec fn class_products(classes: Seq<Seq<Zahl>>) -> Seq<int> {
    Seq::new(classes.len(), |i: int| class_product(classes[i]))
}

/// The products that `canonise_torsion_coeff` forms stay in `u16` along
/// the way.
pub open spec fn canonise_ok(xs: Seq<Zahl>) -> bool {
    forall|i: int, k: int|
        0 <= i < coprime_classes(xs).len() && 0 <= k <= coprime_classes(xs)[i].len() ==> class_product(
            #[trigger] coprime_classes(xs)[i].take(k),
        ) <= Zahl::MAX
}

/// Any two members of `c`, at different places, have no common divisor but
/// one.
pub open spec fn pairwise_coprime(c: Seq<Zahl>) -> bool {
    forall|a: int, b: int| 0 <= a < c.len() && 0 <= b < c.len() && a != b ==> spec_gcd(#[trigger] c[a] as nat, #[trigger] c[b] as nat) == 1
}

/// All members of the classes, each as often as it occurs.
pub open spec fn class_members(classes: Seq<Seq<Zahl>>) -> vstd::multiset::Multiset<Zahl>
    decreases classes.len(),
{
    if classes.len() == 0 {
        vstd::multiset::Multiset::empty()
    } else {
        class_members(classes.drop_last()).add(classes.last().to_multiset())
    }
}

proof fn lemma_first_fit(classes: Seq<Seq<Zahl>>, x: Zahl)
    ensures
        first_fit(classes, x) matches Some(i) ==> 0 <= i < classes.len() && forall|j: int|
            0 <= j < classes[i].len() ==> spec_gcd(x as nat, #[trigger] classes[i][j] as nat) == 1,
    decreases classes.len(),
{
    if classes.len() > 0 && !coprime_to_all(x, classes[0]) {
        lemma_first_fit(classes.drop_first(), x);
        if let Some(i) = first_fit(classes.drop_first(), x) {
            assert(classes[i + 1] == classes.drop_first()[i]);
        }
    }
}

proof fn lemma_class_members_grow(classes: Seq<Seq<Zahl>>, i: int, x: Zahl)
    requires
        0 <= i < classes.len(),
    ensures
        class_members(classes.update(i, classes[i].push(x))) == class_members(classes).insert(x),
    decreases classes.len(),
{
    broadcast use vstd::multiset::group_multiset_axioms, vstd::seq_lib::to_multiset_build;
    let b = classes.update(i, classes[i].push(x));
    let d = classes.drop_last();
    if i == classes.len() - 1 {
        assert(b.drop_last() =~= d);
        assert(b.last() == classes[i].push(x));
        assert(class_members(b) == class_members(d).add(classes[i].push(x).to_multiset()));
        assert(class_members(classes) == class_members(d).add(classes[i].to_multiset()));
        assert(class_members(b) =~= class_members(classes).insert(x));
    } else {
        lemma_class_members_grow(d, i, x);
        assert(b.drop_last() =~= d.update(i, d[i].push(x)));
        assert(b.last() == classes.last());
        assert(class_members(b) == class_members(d.update(i, d[i].push(x))).add(classes.last().to_multiset()));
        assert(class_members(classes) == class_members(d).add(classes.last().to_multiset()));
        assert(class_members(b) =~= class_members(classes).insert(x));
    }
}

/// Canonising keeps the group: the classes hold the coefficients, each as
/// often as it is given, and any two members of a class are coprime, so the
/// product of a class is the order of a cyclic group that is the product of
/// the cyclic groups of its members.
pub proof fn law_coprime_classes(xs: Seq<Zahl>)
    ensures
        class_members(coprime_classes(xs)) == xs.to_multiset(),
        forall|c: int| 0 <= c < coprime_classes(xs).len() ==> pairwise_coprime(#[trigger] coprime_classes(xs)[c]),
    decreases xs.len(),
{
    broadcast use vstd::multiset::group_multiset_axioms, vstd::seq_lib::to_multiset_build;
    broadcast use vstd::seq_lib::to_multiset_contains;
    if xs.len() == 0 {
        assert forall|a: Zahl| #[trigger] xs.to_multiset().count(a) == 0 by {
            assert(!xs.contains(a));
        }
        assert(xs.to_multiset() =~= vstd::multiset::Multiset::empty());
    } else {
        let rest = xs.drop_first();
        let x = xs[0];
        law_coprime_classes(rest);
        let prev = coprime_classes(rest);
        let cl = coprime_classes(xs);
        assert(cl == place(prev, x));
        vstd::seq_lib::lemma_multiset_commutative(seq![x], rest);
        assert(seq![x] + rest =~= xs);
        assert(seq![x].to_multiset() =~= vstd::multiset::Multiset::empty().insert(x)) by {
            let e = Seq::<Zahl>::empty();
            assert(seq![x] =~= e.push(x));
            assert forall|a: Zahl| #[trigger] e.to_multiset().count(a) == 0 by {
                assert(!e.contains(a));
            }
            assert(e.to_multiset() =~= vstd::multiset::Multiset::empty());
        }
        lemma_first_fit(prev, x);
        match first_fit(prev, x) {
            Some(i) => {
                lemma_class_members_grow(prev, i, x);
                assert(class_members(cl) =~= xs.to_multiset());
                assert forall|c: int| 0 <= c < cl.len() implies pairwise_coprime(#[trigger] cl[c]) by {
                    if c == i {
                        let k = cl[c];
                        assert(k == prev[i].push(x));
                        assert forall|a: int, b: int| 0 <= a < k.len() && 0 <= b < k.len() && a != b implies spec_gcd(#[trigger] k[a] as nat, #[trigger] k[b] as nat) == 1 by {
                            let n = prev[i].len() as int;
                            if a == n {
                                assert(k[b] == prev[i][b]);
                            } else if b == n {
                                assert(k[a] == prev[i][a]);
                                lemma_gcd_commutative(x as nat, prev[i][a] as nat);
                            } else {
                                assert(k[a] == prev[i][a] && k[b] == prev[i][b]);
                            }
                        }
                    } else {
                        assert(cl[c] == prev[c]);
                    }
                }
            },
            None => {
                assert(cl == prev.push(seq![x]));
                assert(cl.drop_last() =~= prev);
                assert(class_members(cl) =~= xs.to_multiset());
                assert forall|c: int| 0 <= c < cl.len() implies pairwise_coprime(#[trigger] cl[c]) by {
                    if c < prev.len() {
                        assert(cl[c] == prev[c]);
                    }
                }
            },
        }
    }
}

/// The entries of `s` do not decrease.
pub open spec fn ascending(s: Seq<Zahl>) -> bool {
    forall|i: int, j: int| 0 <= i <= j < s.len() ==> s[i] <= s[j]
}

/// Combines the torsion coefficients into products of pairwise coprime
/// ones: the coefficients are taken from the last to the first, each
/// joining the first class all of whose members are coprime to it or
/// starting a class of its own; the products of the classes, in
/// increasing order.
pub fn canonise_torsion_coeff(torsion_coeff: TorsionCoeff) -> (r: TorsionCoeff)
    requires
        canonise_ok(torsion_coeff@),
    ensures
        ascending(r@),
        r@.map_values(|x: Zahl| x as int).to_multiset() == class_products(coprime_classes(torsion_coeff@)).to_multiset(),
        class_members(coprime_classes(torsion_coeff@)) == torsion_coeff@.to_multiset(),
        forall|c: int|
            0 <= c < coprime_classes(torsion_coeff@).len() ==> pairwise_coprime(#[trigger] coprime_classes(torsion_coeff@)[c]),
{
    let ghost xs = torsion_coeff@;
    proof {
        law_coprime_classes(xs);
    }
    let mut torsion_coeff = torsion_coeff;
    let mut classes: Vec<Vec<Zahl>> = Vec::new();
    proof {
        assert(xs.skip(xs.len() as int) =~= Seq::<Zahl>::empty());
        assert(classes@.map_values(|c: Vec<Zahl>| c@) =~= coprime_classes(Seq::<Zahl>::empty()));
    }
    while torsion_coeff.len() > 0
        invariant
            torsion_coeff@ == xs.take(torsion_coeff@.len() as int),
            torsion_coeff@.len() <= xs.len(),
            classes@.map_values(|c: Vec<Zahl>| c@) == coprime_classes(xs.skip(torsion_coeff@.len() as int)),
        decreases torsion_coeff@.len(),
    {
        let ghost k = torsion_coeff@.len() as int;
        let x = torsion_coeff.pop().unwrap();
        proof {
            assert(x == xs[k - 1]);
            assert(torsion_coeff@ =~= xs.take(k - 1));
            assert(xs.skip(k - 1).drop_first() =~= xs.skip(k));
            assert(xs.skip(k - 1)[0] == x);
        }
        place_coeff(&mut classes, x);
    }
    let mut products: Vec<Zahl> = Vec::new();
    let ghost cls = coprime_classes(xs);
    proof {
        assert(xs.skip(0) =~= xs);
    }
    let mut i: usize = 0;
    while i < classes.len()
        invariant
            classes@.map_values(|c: Vec<Zahl>| c@) == cls,
            cls == coprime_classes(xs),
            canonise_ok(xs),
            i <= classes@.len(),
            cls.len() == classes@.len(),
            products@.len() == i,
            products@.map_values(|x: Zahl| x as int) == class_products(cls).take(i as int),
        decreases classes@.len() - i,
    {
        proof {
            assert(classes@[i as int]@ == cls[i as int]);
        }
        let p = product_of_class(&classes[i], Ghost(cls), Ghost(i as int));
        let ghost before = products@;
        products.push(p);
        proof {
            assert(products@ == before.push(p));
            assert(before.len() == i);
            assert(p as int == class_products(cls)[i as int]);
            let now = products@.map_values(|x: Zahl| x as int);
            let want = class_products(cls).take(i + 1);
            assert forall|j: int| 0 <= j < now.len() implies now[j] == want[j] by {
                if j < i {
                    assert(products@[j] == before[j]);
                    assert(before.map_values(|x: Zahl| x as int)[j] == class_products(cls).take(i as int)[j]);
                }
            }
            assert(now =~= want);
        }
        i += 1;
    }
    proof {
        assert(class_products(cls).take(i as int) =~= class_products(cls));
    }
    sort_ascending(products)
}

/// The product of the members of a class of `cls`, multiplied from the
/// first.
fn product_of_class(class: &Vec<Zahl>, Ghost(cls): Ghost<Seq<Seq<Zahl>>>, Ghost(i): Ghost<int>) -> (p: Zahl)
    requires
        0 <= i < cls.len(),
        class@ == cls[i],
        forall|k: int| 0 <= k <= cls[i].len() ==> class_product(#[trigger] cls[i].take(k)) <= Zahl::MAX,
    ensures
        p == class_product(class@),
{
    let mut p: Zahl = 1;
    let mut k: usize = 0;
    proof {
        assert(class@.take(0) =~= Seq::<Zahl>::empty());
    }
    while k < class.len()
        invariant
            class@ == cls[i],
            forall|j: int| 0 <= j <= cls[i].len() ==> class_product(#[trigger] cls[i].take(j)) <= Zahl::MAX,
            k <= class@.len(),
            p == class_product(class@.take(k as int)),
        decreases class@.len() - k,
    {
        proof {
            assert(class@.take(k + 1).drop_last() =~= class@.take(k as int));
            assert(class_product(cls[i].take(k + 1)) <= Zahl::MAX);
        }
        p = p * class[k];
        k += 1;
    }
    proof {
        assert(class@.take(k as int) =~= class@);
    }
    p
}

/// Puts `x` into the first class all of whose members are coprime to it,
/// or into a new class after the others.
fn place_coeff(classes: &mut Vec<Vec<Zahl>>, x: Zahl)
    ensures
        final(classes)@.map_values(|c: Vec<Zahl>| c@) == place(old(classes)@.map_values(|c: Vec<Zahl>| c@), x),
{
    let ghost cs = classes@.map_values(|c: Vec<Zahl>| c@);
    let mut i: usize = 0;
    proof {
        assert(cs.skip(0) =~= cs);
    }
    while i < classes.len()
        invariant
            classes@.map_values(|c: Vec<Zahl>| c@) == cs,
            cs == old(classes)@.map_values(|c: Vec<Zahl>| c@),
            i <= classes@.len(),
            first_fit(cs, x) == match first_fit(cs.skip(i as int), x) {
                Some(j) => Some(j + i),
                None => None,
            },
        decreases classes@.len() - i,
    {
        let fits = coprime_to_class(x, &classes[i]);
        proof {
            let t = cs.skip(i as int);
            assert(t[0] == classes@[i as int]@);
            assert(t.drop_first() =~= cs.skip(i + 1));
        }
        if fits {
            proof {
                assert(first_fit(cs, x) == Some(i as int));
            }
            let mut class = classes.remove(i);
            let ghost before = class@;
            class.push(x);
            classes.insert(i, class);
            proof {
                assert(classes@.map_values(|c: Vec<Zahl>| c@) =~= cs.update(i as int, cs[i as int].push(x)));
                assert(place(cs, x) == cs.update(i as int, cs[i as int].push(x)));
            }
            return;
        }
        i += 1;
    }
    proof {
        assert(cs.skip(i as int) =~= Seq::<Seq<Zahl>>::empty());
        assert(first_fit(cs, x) is None);
    }
    let mut fresh: Vec<Zahl> = Vec::new();
    fresh.push(x);
    classes.push(fresh);
    proof {
        assert(classes@.map_values(|c: Vec<Zahl>| c@) =~= cs.push(seq![x]));
    }
}

/// Whether `x` is coprime to every member of `class`.
fn coprime_to_class(x: Zahl, class: &Vec<Zahl>) -> (b: bool)
    ensures
        b == coprime_to_all(x, class@),
{
    let mut j: usize = 0;
    while j < class.len()
        invariant
            j <= class@.len(),
            forall|k: int| 0 <= k < j ==> spec_gcd(x as nat, #[trigger] class@[k] as nat) == 1,
        decreases class@.len() - j,
    {
        if !are_coprime(x, class[j]) {
            return false;
        }
        j += 1;
    }
    true
}

/// The numbers in increasing order.
fn sort_ascending(v: Vec<Zahl>) -> (r: Vec<Zahl>)
    ensures
        ascending(r@),
        r@.map_values(|x: Zahl| x as int).to_multiset() == v@.map_values(|x: Zahl| x as int).to_multiset(),
{
    let mut r: Vec<Zahl> = Vec::new();
    let mut i: usize = 0;
    proof {
        assert(v@.take(0).map_values(|x: Zahl| x as int) =~= Seq::<int>::empty());
        assert(r@.map_values(|x: Zahl| x as int) =~= Seq::<int>::empty());
    }
    while i < v.len()
        invariant
            i <= v@.len(),
            ascending(r@),
            r@.map_values(|x: Zahl| x as int).to_multiset() == v@.take(i as int).map_values(|x: Zahl| x as int).to_multiset(),
        decreases v@.len() - i,
    {
        let x = v[i];
        let mut p: usize = 0;
        while p < r.len() && r[p] <= x
            invariant
                p <= r@.len(),
                forall|j: int| 0 <= j < p ==> r@[j] <= x,
            decreases r@.len() - p,
        {
            p += 1;
        }
        let ghost before = r@;
        r.insert(p, x);
        proof {
            assert(r@.map_values(|y: Zahl| y as int) =~= before.map_values(|y: Zahl| y as int).insert(p as int, x as int));
            assert(v@.take(i + 1).map_values(|y: Zahl| y as int) =~= v@.take(i as int).map_values(|y: Zahl| y as int).push(x as int));
            assert(v@.take(i as int).map_values(|y: Zahl| y as int).push(x as int) =~= v@.take(i as int).map_values(|y: Zahl| y as int).insert(i as int, x as int));
        }
        i += 1;
    }
    proof {
        assert(v@.take(i as int) =~= v@);
    }
    r
}

/* # canonical groups */

/// A finite abelian group given by its torsion coefficients: the product of
/// the cyclic groups of those orders. Its elements are lists of residues,
/// one for each coefficient.
#[derive(Clone, Debug, PartialEq, Eq, Hash)]
pub struct CanonZModule {
    torsion_coeff: TorsionCoeff,
}

/// The residues `0..c`.
pub open spec fn residues(c: Zahl) -> Seq<Zahl> {
    Seq::new(c as nat, |k: int| k as Zahl)
}

/// The number of places three lists have in common.
pub open spec fn common3(a: nat, b: nat, c: nat) -> nat {
    if a <= b && a <= c {
        a
    } else if b <= c {
        b
    } else {
        c
    }
}

/// The sums of the residues of `v` and `u`, each modulo its coefficient of
/// `cs`, as far as all three go.
pub open spec fn sum_mod(cs: Seq<Zahl>, v: Seq<Zahl>, u: Seq<Zahl>) -> Seq<Zahl> {
    Seq::new(common3(cs.len(), v.len(), u.len()), |i: int| ((v[i] + u[i]) % (cs[i] as int)) as Zahl)
}

/// The sums of `sum_mod` stay in `u16` and every coefficient they use is
/// positive.
pub open spec fn sum_ok(cs: Seq<Zahl>, v: Seq<Zahl>, u: Seq<Zahl>) -> bool {
    forall|i: int| 0 <= i < common3(cs.len(), v.len(), u.len()) ==> #[trigger] v[i] + u[i] <= Zahl::MAX && cs[i] > 0
}

/// The residues of `v` times `x`, each modulo its coefficient of `cs`, as
/// far as both go.
pub open spec fn scaled_mod(cs: Seq<Zahl>, x: Zahl, v: Seq<Zahl>) -> Seq<Zahl> {
    Seq::new(if cs.len() < v.len() { cs.len() } else { v.len() }, |i: int| ((v[i] * x) % (cs[i] as int)) as Zahl)
}

/// The products of `scaled_mod` stay in `u16` and every coefficient they use
/// is positive.
pub open spec fn scaled_ok(cs: Seq<Zahl>, x: Zahl, v: Seq<Zahl>) -> bool {
    forall|i: int| 0 <= i < cs.len() && i < v.len() ==> #[trigger] v[i] * x <= Zahl::MAX && cs[i] > 0
}

impl CanonZModule {
    /// The torsion coefficients.
    pub closed spec fn coeffs(&self) -> Seq<Zahl> {
        self.torsion_coeff@
    }

    /// The group with the given coefficients, as they are.
    pub fn new_unchecked(torsion_coeff: TorsionCoeff) -> (m: Self)
        ensures
            m.coeffs() == torsion_coeff@,
    {
        Self { torsion_coeff }
    }

    /// The group with the given coefficients, combined by
    /// `canonise_torsion_coeff`.
    pub fn new(torsion_coeff: TorsionCoeff) -> (m: Self)
        requires
            canonise_ok(torsion_coeff@),
        ensures
            ascending(m.coeffs()),
            m.coeffs().map_values(|x: Zahl| x as int).to_multiset() == class_products(coprime_classes(torsion_coeff@)).to_multiset(),
            class_members(coprime_classes(torsion_coeff@)) == torsion_coeff@.to_multiset(),
            forall|c: int|
                0 <= c < coprime_classes(torsion_coeff@).len() ==> pairwise_coprime(#[trigger] coprime_classes(torsion_coeff@)[c]),
    {
        Self::new_unchecked(canonise_torsion_coeff(torsion_coeff))
    }

    /// The number of coefficients.
    pub fn dimension(&self) -> (d: usize)
        ensures
            d == self.coeffs().len(),
    {
        self.torsion_coeff.len()
    }

    /// A copy of the coefficients.
    pub fn torsion_coeff(&self) -> (t: TorsionCoeff)
        ensures
            t@ == self.coeffs(),
    {
        let t = copy_range(&self.torsion_coeff, 0, self.torsion_coeff.len());
        proof {
            assert(t@ =~= self.coeffs());
        }
        t
    }

    /// The product of two groups: the coefficients of `left`, then those of
    /// `right`.
    pub fn product(left: CanonZModule, right: CanonZModule) -> (m: Self)
        ensures
            m.coeffs() == left.coeffs() + right.coeffs(),
    {
        let mut torsion_coeff = left.torsion_coeff;
        let mut rest = right.torsion_coeff;
        torsion_coeff.append(&mut rest);
        Self { torsion_coeff }
    }

    /// The generators: for each place, the element with a one there and
    /// zeros elsewhere.
    pub fn generators(&self) -> (g: Vec<Vec<Zahl>>)
        ensures
            g@.len() == self.coeffs().len(),
            forall|i: int|
                0 <= i < g@.len() ==> (#[trigger] g@[i])@ == Seq::new(
                    self.coeffs().len(),
                    |j: int| if j == i { 1 as Zahl } else { 0 as Zahl },
                ),
    {
        let dim = self.dimension();
        let mut g: Vec<Vec<Zahl>> = Vec::new();
        let mut index: usize = 0;
        while index < dim
            invariant
                dim == self.coeffs().len(),
                index <= dim,
                g@.len() == index,
                forall|i: int|
                    0 <= i < index ==> (#[trigger] g@[i])@ == Seq::new(
                        self.coeffs().len(),
                        |j: int| if j == i { 1 as Zahl } else { 0 as Zahl },
                    ),
            decreases dim - index,
        {
            let v = versor(index, dim);
            proof {
                assert(v@ =~= Seq::new(self.coeffs().len(), |j: int| if j == index { 1 as Zahl } else { 0 as Zahl }));
            }
            g.push(v);
            index += 1;
        }
        g
    }

    /// Every element: every list of residues, one below each coefficient,
    /// the last place changing fastest.
    pub fn all_elements(&self) -> (e: Vec<Vec<Zahl>>)
        ensures
            e@.map_values(|v: Vec<Zahl>| v@) == cartesian(self.coeffs().map_values(|c: Zahl| residues(c))),
    {
        let mut ranges: Vec<Vec<Zahl>> = Vec::new();
        let mut i: usize = 0;
        while i < self.torsion_coeff.len()
            invariant
                i <= self.coeffs().len(),
                ranges@.len() == i,
                forall|k: int| 0 <= k < i ==> (#[trigger] ranges@[k])@ == residues(self.coeffs()[k]),
            decreases self.coeffs().len() - i,
        {
            let c = self.torsion_coeff[i];
            let mut range: Vec<Zahl> = Vec::new();
            let mut k: Zahl = 0;
            while k < c
                invariant
                    k <= c,
                    range@ == residues(c).take(k as int),
                decreases c - k,
            {
                range.push(k);
                proof {
                    assert(range@ =~= residues(c).take(k + 1));
                }
                k += 1;
            }
            proof {
                assert(residues(c).take(c as int) =~= residues(c));
            }
            ranges.push(range);
            i += 1;
        }
        proof {
            assert(ranges@.map_values(|v: Vec<Zahl>| v@) =~= self.coeffs().map_values(|c: Zahl| residues(c)));
        }
        multi_cartesian(&ranges)
    }

    /// The number of elements: the product of the coefficients.
    pub fn cardinality(&self) -> (n: usize)
        requires
            forall|k: int| 0 <= k <= self.coeffs().len() ==> class_product(#[trigger] self.coeffs().take(k)) <= Zahl::MAX,
        ensures
            n == class_product(self.coeffs()),
    {
        let mut p: Zahl = 1;
        let mut k: usize = 0;
        proof {
            assert(self.coeffs().take(0) =~= Seq::<Zahl>::empty());
        }
        while k < self.torsion_coeff.len()
            invariant
                forall|j: int| 0 <= j <= self.coeffs().len() ==> class_product(#[trigger] self.coeffs().take(j)) <= Zahl::MAX,
                k <= self.coeffs().len(),
                p == class_product(self.coeffs().take(k as int)),
            decreases self.coeffs().len() - k,
        {
            proof {
                assert(self.coeffs().take(k + 1).drop_last() =~= self.coeffs().take(k as int));
                assert(class_product(self.coeffs().take(k + 1)) <= Zahl::MAX);
            }
            p = p * self.torsion_coeff[k];
            k += 1;
        }
        proof {
            assert(self.coeffs().take(k as int) =~= self.coeffs());
        }
        p as usize
    }

    /* ## the group operations */

    /// Whether `v` has one residue for each coefficient.
    pub fn is_element(&self, v: &Vec<Zahl>) -> (b: bool)
        ensures
            b == (v@.len() == self.coeffs().len()),
    {
        self.torsion_coeff.len() == v.len()
    }

    /// The neutral element: a zero for each coefficient.
    pub fn zero(&self) -> (z: Vec<Zahl>)
        ensures
            z@ == Seq::new(self.coeffs().len(), |i: int| 0 as Zahl),
    {
        let mut z: Vec<Zahl> = Vec::new();
        let mut i: usize = 0;
        while i < self.torsion_coeff.len()
            invariant
                i <= self.coeffs().len(),
                z@ == Seq::new(i as nat, |k: int| 0 as Zahl),
            decreases self.coeffs().len() - i,
        {
            z.push(0);
            proof {
                assert(z@ =~= Seq::new((i + 1) as nat, |k: int| 0 as Zahl));
            }
            i += 1;
        }
        z
    }

    /// The sum of `v` and `u`, each place modulo its coefficient, as far as
    /// the coefficients and both lists go.
    pub fn add_unchecked(&self, v: &Vec<Zahl>, u: &Vec<Zahl>) -> (w: Vec<Zahl>)
        requires
            sum_ok(self.coeffs(), v@, u@),
        ensures
            w@ == sum_mod(self.coeffs(), v@, u@),
    {
        let n = common3_exec(self.torsion_coeff.len(), v.len(), u.len());
        let mut w: Vec<Zahl> = Vec::new();
        let mut i: usize = 0;
        while i < n
            invariant
                n == common3(self.coeffs().len(), v@.len(), u@.len()),
                sum_ok(self.coeffs(), v@, u@),
                i <= n,
                w@ == sum_mod(self.coeffs(), v@, u@).take(i as int),
            decreases n - i,
        {
            proof {
                assert(v@[i as int] + u@[i as int] <= Zahl::MAX && self.coeffs()[i as int] > 0);
            }
            w.push((v[i] + u[i]) % self.torsion_coeff[i]);
            proof {
                assert(w@ =~= sum_mod(self.coeffs(), v@, u@).take(i + 1));
            }
            i += 1;
        }
        proof {
            assert(sum_mod(self.coeffs(), v@, u@).take(n as int) =~= sum_mod(self.coeffs(), v@, u@));
        }
        w
    }

    /// Adds `u` to `v` in place, each place modulo its coefficient, as far as
    /// the coefficients and both lists go; the rest of `v` stays.
    pub fn increment_unchecked(&self, v: &mut Vec<Zahl>, u: &Vec<Zahl>)
        requires
            sum_ok(self.coeffs(), old(v)@, u@),
        ensures
            final(v)@ == sum_mod(self.coeffs(), old(v)@, u@) + old(v)@.skip(common3(self.coeffs().len(), old(v)@.len(), u@.len()) as int),
    {
        let ghost v0 = v@;
        let n = common3_exec(self.torsion_coeff.len(), v.len(), u.len());
        let mut i: usize = 0;
        while i < n
            invariant
                n == common3(self.coeffs().len(), v0.len(), u@.len()),
                sum_ok(self.coeffs(), v0, u@),
                i <= n,
                v@.len() == v0.len(),
                forall|k: int| 0 <= k < i ==> #[trigger] v@[k] == sum_mod(self.coeffs(), v0, u@)[k],
                forall|k: int| i <= k < v0.len() ==> #[trigger] v@[k] == v0[k],
            decreases n - i,
        {
            proof {
                assert(v0[i as int] + u@[i as int] <= Zahl::MAX && self.coeffs()[i as int] > 0);
            }
            let x = (v[i] + u[i]) % self.torsion_coeff[i];
            v.set(i, x);
            i += 1;
        }
        proof {
            assert(v@ =~= sum_mod(self.coeffs(), v0, u@) + v0.skip(n as int));
        }
    }

    /// `v` times `x`, each place modulo its coefficient, as far as the
    /// coefficients and `v` go.
    pub fn mul_by_scalar_unchecked(&self, x: Zahl, v: &Vec<Zahl>) -> (w: Vec<Zahl>)
        requires
            scaled_ok(self.coeffs(), x, v@),
        ensures
            w@ == scaled_mod(self.coeffs(), x, v@),
    {
        let n = if self.torsion_coeff.len() < v.len() { self.torsion_coeff.len() } else { v.len() };
        let mut w: Vec<Zahl> = Vec::new();
        let mut i: usize = 0;
        while i < n
            invariant
                n == (if self.coeffs().len() < v@.len() { self.coeffs().len() } else { v@.len() }),
                scaled_ok(self.coeffs(), x, v@),
                i <= n,
                w@ == scaled_mod(self.coeffs(), x, v@).take(i as int),
            decreases n - i,
        {
            proof {
                assert(v@[i as int] * x <= Zahl::MAX && self.coeffs()[i as int] > 0);
            }
            w.push((v[i] * x) % self.torsion_coeff[i]);
            proof {
                assert(w@ =~= scaled_mod(self.coeffs(), x, v@).take(i + 1));
            }
            i += 1;
        }
        proof {
            assert(scaled_mod(self.coeffs(), x, v@).take(n as int) =~= scaled_mod(self.coeffs(), x, v@));
        }
        w
    }

    /// The sum of two elements, or `InvalidElement` where one of them does
    /// not have a residue for each coefficient.
    pub fn add(&self, v: &Vec<Zahl>, u: &Vec<Zahl>) -> (r: Result<Vec<Zahl>, Error>)
        requires
            v@.len() == self.coeffs().len() && u@.len() == self.coeffs().len() ==> sum_ok(self.coeffs(), v@, u@),
        ensures
            v@.len() == self.coeffs().len() && u@.len() == self.coeffs().len() ==> r is Ok && r->Ok_0@ == sum_mod(
                self.coeffs(),
                v@,
                u@,
            ),
            !(v@.len() == self.coeffs().len() && u@.len() == self.coeffs().len()) ==> r == Err::<Vec<Zahl>, Error>(
                Error::InvalidElement,
            ),
    {
        if self.is_element(v) && self.is_element(u) {
            Ok(self.add_unchecked(v, u))
        } else {
            Err(Error::InvalidElement)
        }
    }

    /// Adds `u` to `v` in place, or gives `InvalidElement`, leaving `v` as it
    /// is, where one of them does not have a residue for each coefficient.
    pub fn increment(&self, v: &mut Vec<Zahl>, u: &Vec<Zahl>) -> (r: Result<(), Error>)
        requires
            old(v)@.len() == self.coeffs().len() && u@.len() == self.coeffs().len() ==> sum_ok(self.coeffs(), old(v)@, u@),
        ensures
            old(v)@.len() == self.coeffs().len() && u@.len() == self.coeffs().len() ==> r is Ok && final(v)@ == sum_mod(
                self.coeffs(),
                old(v)@,
                u@,
            ),
            !(old(v)@.len() == self.coeffs().len() && u@.len() == self.coeffs().len()) ==> r == Err::<(), Error>(
                Error::InvalidElement,
            ) && final(v)@ == old(v)@,
    {
        if self.is_element(v) && self.is_element(u) {
            self.increment_unchecked(v, u);
            proof {
                assert(sum_mod(self.coeffs(), old(v)@, u@) + old(v)@.skip(self.coeffs().len() as int) =~= sum_mod(
                    self.coeffs(),
                    old(v)@,
                    u@,
                ));
            }
            Ok(())
        } else {
            Err(Error::InvalidElement)
        }
    }

    /// `v` times `x`, or `InvalidElement` where `v` does not have a residue
    /// for each coefficient.
    pub fn mul_by_scalar(&self, x: Zahl, v: &Vec<Zahl>) -> (r: Result<Vec<Zahl>, Error>)
        requires
            v@.len() == self.coeffs().len() ==> scaled_ok(self.coeffs(), x, v@),
        ensures
            v@.len() == self.coeffs().len() ==> r is Ok && r->Ok_0@ == scaled_mod(self.coeffs(), x, v@),
            v@.len() != self.coeffs().len() ==> r == Err::<Vec<Zahl>, Error>(Error::InvalidElement),
    {
        if self.is_element(v) {
            Ok(self.mul_by_scalar_unchecked(x, v))
        } else {
            Err(Error::InvalidElement)
        }
    }
}

/* ## laws of the group operations */

/// `v` has one residue below each coefficient of `cs`.
pub open spec fn is_residue_list(cs: Seq<Zahl>, v: Seq<Zahl>) -> bool {
    v.len() == cs.len() && forall|i: int| 0 <= i < cs.len() ==> #[trigger] v[i] < cs[i]
}

/// Adding two elements does not depend on their order.
pub proof fn law_group_add_commutative(cs: Seq<Zahl>, v: Seq<Zahl>, u: Seq<Zahl>)
    ensures
        sum_mod(cs, v, u) == sum_mod(cs, u, v),
{
    assert(sum_mod(cs, v, u) =~= sum_mod(cs, u, v));
}

/// Adding three elements does not depend on how they are grouped.
pub proof fn law_group_add_associative(cs: Seq<Zahl>, v: Seq<Zahl>, u: Seq<Zahl>, w: Seq<Zahl>)
    requires
        v.len() == cs.len(),
        u.len() == cs.len(),
        w.len() == cs.len(),
        forall|i: int| 0 <= i < cs.len() ==> #[trigger] cs[i] > 0,
    ensures
        sum_mod(cs, sum_mod(cs, v, u), w) == sum_mod(cs, v, sum_mod(cs, u, w)),
{
    let left = sum_mod(cs, sum_mod(cs, v, u), w);
    let right = sum_mod(cs, v, sum_mod(cs, u, w));
    assert forall|i: int| 0 <= i < cs.len() implies #[trigger] left[i] == right[i] by {
        let c = cs[i] as int;
        let a = v[i] as int;
        let b = u[i] as int;
        let d = w[i] as int;
        vstd::arithmetic::div_mod::lemma_add_mod_noop(a + b, d, c);
        vstd::arithmetic::div_mod::lemma_add_mod_noop(a, b + d, c);
        vstd::arithmetic::div_mod::lemma_mod_twice(d, c);
        vstd::arithmetic::div_mod::lemma_mod_twice(a, c);
        vstd::arithmetic::div_mod::lemma_add_mod_noop((a + b) % c, d, c);
        vstd::arithmetic::div_mod::lemma_add_mod_noop(a, (b + d) % c, c);
        vstd::arithmetic::div_mod::lemma_mod_twice(a + b, c);
        vstd::arithmetic::div_mod::lemma_mod_twice(b + d, c);
        assert(a + b + d == a + (b + d));
    }
    assert(left =~= right);
}

/// Adding the neutral element leaves an element as it is.
pub proof fn law_group_zero_neutral(cs: Seq<Zahl>, v: Seq<Zahl>)
    requires
        is_residue_list(cs, v),
    ensures
        sum_mod(cs, v, Seq::new(cs.len(), |i: int| 0 as Zahl)) == v,
{
    let z = Seq::new(cs.len(), |i: int| 0 as Zahl);
    assert forall|i: int| 0 <= i < cs.len() implies #[trigger] sum_mod(cs, v, z)[i] == v[i] by {
        vstd::arithmetic::div_mod::lemma_small_mod(v[i] as nat, cs[i] as nat);
    }
    assert(sum_mod(cs, v, z) =~= v);
}

/// Multiplying by a scalar distributes over the sum of two elements.
pub proof fn law_group_scalar_distributive(cs: Seq<Zahl>, x: Zahl, v: Seq<Zahl>, u: Seq<Zahl>)
    requires
        v.len() == cs.len(),
        u.len() == cs.len(),
        forall|i: int| 0 <= i < cs.len() ==> #[trigger] cs[i] > 0,
    ensures
        scaled_mod(cs, x, sum_mod(cs, v, u)) == sum_mod(cs, scaled_mod(cs, x, v), scaled_mod(cs, x, u)),
{
    let left = scaled_mod(cs, x, sum_mod(cs, v, u));
    let right = sum_mod(cs, scaled_mod(cs, x, v), scaled_mod(cs, x, u));
    assert forall|i: int| 0 <= i < cs.len() implies #[trigger] left[i] == right[i] by {
        let c = cs[i] as int;
        let a = v[i] as int;
        let b = u[i] as int;
        let y = x as int;
        vstd::arithmetic::div_mod::lemma_mul_mod_noop_left(a + b, y, c);
        vstd::arithmetic::div_mod::lemma_add_mod_noop(a * y, b * y, c);
        vstd::arithmetic::mul::lemma_mul_is_distributive_add_other_way(y, a, b);
        vstd::arithmetic::div_mod::lemma_mod_twice(a * y + b * y, c);
    }
    assert(left =~= right);
}

/// Multiplying by one leaves an element as it is.
pub proof fn law_group_scalar_one(cs: Seq<Zahl>, v: Seq<Zahl>)
    requires
        is_residue_list(cs, v),
    ensures
        scaled_mod(cs, 1, v) == v,
{
    assert forall|i: int| 0 <= i < cs.len() implies #[trigger] scaled_mod(cs, 1, v)[i] == v[i] by {
        vstd::arithmetic::div_mod::lemma_small_mod(v[i] as nat, cs[i] as nat);
    }
    assert(scaled_mod(cs, 1, v) =~= v);
}

/// The number of places three lists have in common.
fn common3_exec(a: usize, b: usize, c: usize) -> (n: usize)
    ensures
        n == common3(a as nat, b as nat, c as nat),
{
    if a <= b && a <= c {
        a
    } else if b <= c {
        b
    } else {
        c
    }
}

} // verus!
