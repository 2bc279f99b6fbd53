//! Endomorphisms in a category of relations between modules, and the
//! Szymczak isomorphism between them: `l` and `r` are Szymczak isomorphic
//! when relations `l_to_r` and `r_to_l` intertwine them and compose, both
//! ways, to an identity on the cycle of powers of `l` (resp. `r`).
use vstd::prelude::*;
use std::sync::Arc;
use crate::category::relation::{
    Relation, composable, composes_to, cycle_entries, entries_of, is_cycle_of, lemma_cycle_entries,
    domain_size, lemma_cycle_exists, lemma_intertwine_powers, lemma_power_add, lemma_power_in_cycle, power, power_at, repeats_at,
    same_relation,
};
use crate::category::{Container, position_of, relates, small, size, lemma_position_of};
use crate::rmodule::canon::CanonModule;
use crate::rmodule::ring::Fin;
use crate::RECURSION_PARAMETER_SZYMCZAK_FUNCTOR;
use crate::util::matrix::{
    Matrix, bool_product, bool_well_shaped, composed, diagonal, law_compose_bool_identity, lemma_bool_compose_ok, lemma_composed_is_product,
    lemma_product_assoc, related,
};

verus! {

/// Whether composing `morphism` with some member of `cycle` gives a member
/// of `cycle`.
pub fn is_identity<const N: u16>(morphism: &Relation<Fin<N>>, cycle: &Vec<Relation<Fin<N>>>) -> (b: bool)
    requires
        forall|i: int| 0 <= i < cycle@.len() ==> composable(*morphism, #[trigger] cycle@[i]),
    ensures
        b <==> exists|i: int, j: int|
            0 <= i < cycle@.len() && 0 <= j < cycle@.len() && #[trigger] composes_to(*morphism, cycle@[i], cycle@[j]),
{
    let mut i: usize = 0;
    while i < cycle.len()
        invariant
            i <= cycle@.len(),
            forall|k: int| 0 <= k < cycle@.len() ==> composable(*morphism, #[trigger] cycle@[k]),
            forall|a: int, c: int| 0 <= a < i && 0 <= c < cycle@.len() ==> !#[trigger] composes_to(*morphism, cycle@[a], cycle@[c]),
        decreases cycle@.len() - i,
    {
        proof {
            assert(composable(*morphism, cycle@[i as int]));
            lemma_bool_compose_ok(morphism.matrix, cycle@[i as int].matrix);
        }
        let en_morphism = morphism.compose_unchecked(&cycle[i]);
        let mut j: usize = 0;
        while j < cycle.len()
            invariant
                i < cycle@.len(),
                j <= cycle@.len(),
                *en_morphism.source == *morphism.source,
                *en_morphism.target == *cycle@[i as int].target,
                en_morphism.matrix.ncols() == morphism.matrix.ncols(),
                en_morphism.matrix.nrows() == cycle@[i as int].matrix.nrows(),
                en_morphism.matrix.entries() == composed(morphism.matrix, cycle@[i as int].matrix),
                forall|c: int| 0 <= c < j ==> !#[trigger] composes_to(*morphism, cycle@[i as int], cycle@[c]),
            decreases cycle@.len() - j,
        {
            if en_morphism.same_as(&cycle[j]) {
                assert(composes_to(*morphism, cycle@[i as int], cycle@[j as int]));
                return true;
            }
            j += 1;
        }
        i += 1;
    }
    false
}

/// Whether composing the relation with buffer `m` (on `n` elements) with
/// some member of `cycle` gives a member of `cycle`, both given by their
/// buffers.
pub open spec fn identity_on(m: Seq<bool>, cycle: Seq<Seq<bool>>, n: int) -> bool {
    exists|i: int, j: int|
        0 <= i < cycle.len() && 0 <= j < cycle.len() && #[trigger] bool_product(m, cycle[i], n, n, n) == #[trigger] cycle[j]
}

/// `a` (from the object of `l` to that of `r`) and `b` (back) witness that
/// the endomorphisms `l` and `r`, with the cycles `lc` and `rc` (given by
/// the buffers of their members), are
/// Szymczak isomorphic: `a` then `r` is `l` then `a`, `b` then `l` is `r`
/// then `b`, and `a` then `b`, and `b` then `a`, act as identities on the
/// cycles.
pub open spec fn szymczak_witness<const N: u16>(
    l: Relation<Fin<N>>,
    lc: Seq<Seq<bool>>,
    r: Relation<Fin<N>>,
    rc: Seq<Seq<bool>>,
    a: Relation<Fin<N>>,
    b: Relation<Fin<N>>,
) -> bool {
    let nl = l.matrix.ncols() as int;
    let nr = r.matrix.ncols() as int;
    let (le, re, ae, be) = (l.matrix.entries(), r.matrix.entries(), a.matrix.entries(), b.matrix.entries());
    &&& bool_product(ae, re, nl, nr, nr) == bool_product(le, ae, nl, nl, nr)
    &&& bool_product(be, le, nr, nl, nl) == bool_product(re, be, nr, nr, nl)
    &&& identity_on(bool_product(ae, be, nl, nr, nl), lc, nl)
    &&& identity_on(bool_product(be, ae, nr, nl, nr), rc, nr)
}

/// `e` is an endomorphism of a module among the objects of `category`, and
/// every member of `cycle` is a relation from that module to itself.
pub open spec fn endo_in<const N: u16>(e: Relation<Fin<N>>, cycle: Seq<Relation<Fin<N>>>, category: Container<N>) -> bool {
    let p = position_of(category.objects@, e.source.coeff_values());
    &&& p >= 0
    &&& e.target.coeff_values() == e.source.coeff_values()
    &&& relates(e, *category.objects@[p], *category.objects@[p])
    &&& forall|i: int| 0 <= i < cycle.len() ==> relates(#[trigger] cycle[i], *category.objects@[p], *category.objects@[p])
}

/// What `witness` needs: `l` and `r` are endomorphisms of small modules, with
/// cycles of relations on the same modules, and `a` and `b` go between them.
pub open spec fn witness_ok<const N: u16>(
    l: Relation<Fin<N>>,
    lc: Seq<Relation<Fin<N>>>,
    r: Relation<Fin<N>>,
    rc: Seq<Relation<Fin<N>>>,
    a: Relation<Fin<N>>,
    b: Relation<Fin<N>>,
    ol: CanonModule<Fin<N>>,
    or: CanonModule<Fin<N>>,
) -> bool {
    &&& small(ol)
    &&& small(or)
    &&& relates(l, ol, ol)
    &&& relates(r, or, or)
    &&& relates(a, ol, or)
    &&& relates(b, or, ol)
    &&& forall|i: int| 0 <= i < lc.len() ==> relates(#[trigger] lc[i], ol, ol)
    &&& forall|i: int| 0 <= i < rc.len() ==> relates(#[trigger] rc[i], or, or)
}

proof fn lemma_small_offsets(rows: int, cols: int)
    requires
        1 <= rows <= 16,
        1 <= cols <= 16,
    ensures
        (rows - 1) * cols <= u8::MAX,
{
    assert((rows - 1) * cols <= 15 * 16) by (nonlinear_arith)
        requires
            0 <= rows - 1 <= 15,
            1 <= cols <= 16,
    ;
}

/// Whether `a` and `b` witness that `l` and `r` are Szymczak isomorphic.
fn witness<const N: u16>(
    l: &Relation<Fin<N>>,
    lc: &Vec<Relation<Fin<N>>>,
    r: &Relation<Fin<N>>,
    rc: &Vec<Relation<Fin<N>>>,
    a: &Relation<Fin<N>>,
    b: &Relation<Fin<N>>,
    Ghost(ol): Ghost<CanonModule<Fin<N>>>,
    Ghost(or): Ghost<CanonModule<Fin<N>>>,
) -> (w: bool)
    requires
        witness_ok(*l, lc@, *r, rc@, *a, *b, ol, or),
    ensures
        w == szymczak_witness(*l, entries_of(lc@), *r, entries_of(rc@), *a, *b),
{
    let ghost nl = size(ol);
    let ghost nr = size(or);
    proof {
        lemma_small_offsets(nl, nl);
        lemma_small_offsets(nl, nr);
        lemma_small_offsets(nr, nl);
        lemma_small_offsets(nr, nr);
        lemma_bool_compose_ok(a.matrix, r.matrix);
        lemma_bool_compose_ok(l.matrix, a.matrix);
        lemma_bool_compose_ok(b.matrix, l.matrix);
        lemma_bool_compose_ok(r.matrix, b.matrix);
        lemma_bool_compose_ok(a.matrix, b.matrix);
        lemma_bool_compose_ok(b.matrix, a.matrix);
        lemma_composed_is_product(a.matrix, r.matrix);
        lemma_composed_is_product(l.matrix, a.matrix);
        lemma_composed_is_product(b.matrix, l.matrix);
        lemma_composed_is_product(r.matrix, b.matrix);
        lemma_composed_is_product(a.matrix, b.matrix);
        lemma_composed_is_product(b.matrix, a.matrix);
    }
    let ar = a.compose_unchecked(r);
    let la = l.compose_unchecked(a);
    let bl = b.compose_unchecked(l);
    let rb = r.compose_unchecked(b);
    let ab = a.compose_unchecked(b);
    let ba = b.compose_unchecked(a);
    proof {
        assert(bool_well_shaped(ab.matrix));
        assert(bool_well_shaped(ba.matrix));
        assert forall|i: int| 0 <= i < lc@.len() implies composable(ab, #[trigger] lc@[i]) by {
            assert(relates(lc@[i], ol, ol));
        }
        assert forall|i: int| 0 <= i < rc@.len() implies composable(ba, #[trigger] rc@[i]) by {
            assert(relates(rc@[i], or, or));
        }
    }
    let w1 = ar.same_as(&la);
    let w2 = bl.same_as(&rb);
    let w3 = is_identity(&ab, lc);
    let w4 = is_identity(&ba, rc);
    proof {
        let ghost abe = bool_product(a.matrix.entries(), b.matrix.entries(), nl, nr, nl);
        let ghost bae = bool_product(b.matrix.entries(), a.matrix.entries(), nr, nl, nr);
        assert(w3 <==> identity_on(abe, entries_of(lc@), nl)) by {
            if w3 {
                let (i, j) = choose|i: int, j: int|
                    0 <= i < lc@.len() && 0 <= j < lc@.len() && #[trigger] composes_to(ab, lc@[i], lc@[j]);
                lemma_composed_is_product(ab.matrix, lc@[i].matrix);
                assert(bool_product(abe, entries_of(lc@)[i], nl, nl, nl) == entries_of(lc@)[j]);
            }
            if identity_on(abe, entries_of(lc@), nl) {
                let (i, j) = choose|i: int, j: int|
                    0 <= i < lc@.len() && 0 <= j < lc@.len() && #[trigger] bool_product(abe, entries_of(lc@)[i], nl, nl, nl)
                        == #[trigger] entries_of(lc@)[j];
                assert(relates(lc@[i], ol, ol));
                assert(relates(lc@[j], ol, ol));
                lemma_composed_is_product(ab.matrix, lc@[i].matrix);
                assert(composes_to(ab, lc@[i], lc@[j]));
            }
        }
        assert(w4 <==> identity_on(bae, entries_of(rc@), nr)) by {
            if w4 {
                let (i, j) = choose|i: int, j: int|
                    0 <= i < rc@.len() && 0 <= j < rc@.len() && #[trigger] composes_to(ba, rc@[i], rc@[j]);
                lemma_composed_is_product(ba.matrix, rc@[i].matrix);
                assert(bool_product(bae, entries_of(rc@)[i], nr, nr, nr) == entries_of(rc@)[j]);
            }
            if identity_on(bae, entries_of(rc@), nr) {
                let (i, j) = choose|i: int, j: int|
                    0 <= i < rc@.len() && 0 <= j < rc@.len() && #[trigger] bool_product(bae, entries_of(rc@)[i], nr, nr, nr)
                        == #[trigger] entries_of(rc@)[j];
                assert(relates(rc@[i], or, or));
                assert(relates(rc@[j], or, or));
                lemma_composed_is_product(ba.matrix, rc@[i].matrix);
                assert(composes_to(ba, rc@[i], rc@[j]));
            }
        }
    }
    w1 && w2 && w3 && w4
}

/// Whether some relation of `hom_sets` from the module of `l` to that of
/// `r`, and some relation back, witness that `l` and `r`, with their cycles,
/// are Szymczak isomorphic.
pub open spec fn szymczak_isomorphic<const N: u16>(
    l: Relation<Fin<N>>,
    lc: Seq<Seq<bool>>,
    r: Relation<Fin<N>>,
    rc: Seq<Seq<bool>>,
    hom_sets: Container<N>,
) -> bool {
    let l_to_r = hom_sets.homs(
        position_of(hom_sets.objects@, l.target.coeff_values()),
        position_of(hom_sets.objects@, r.source.coeff_values()),
    );
    let r_to_l = hom_sets.homs(
        position_of(hom_sets.objects@, r.target.coeff_values()),
        position_of(hom_sets.objects@, l.source.coeff_values()),
    );
    exists|x: int, y: int|
        0 <= x < l_to_r.len() && 0 <= y < r_to_l.len() && #[trigger] szymczak_witness(l, lc, r, rc, l_to_r[x], r_to_l[y])
}

/// What comparing endomorphisms of the modules at `p` and `q` of `h` reads:
/// both modules are small, and the relations between them go between them.
pub open spec fn pair_ok<const N: u16>(h: Container<N>, p: int, q: int) -> bool {
    &&& 0 <= p < h.objects@.len()
    &&& 0 <= q < h.objects@.len()
    &&& small(h.object(p))
    &&& small(h.object(q))
    &&& forall|k: int| 0 <= k < h.homs(p, q).len() ==> relates(#[trigger] h.homs(p, q)[k], h.object(p), h.object(q))
    &&& forall|k: int| 0 <= k < h.homs(q, p).len() ==> relates(#[trigger] h.homs(q, p)[k], h.object(q), h.object(p))
}

/// In a well-formed container every pair of modules can be compared.
proof fn lemma_wf_pair_ok<const N: u16>(h: Container<N>, a: Relation<Fin<N>>, b: Relation<Fin<N>>)
    requires
        h.wf(),
        position_of(h.objects@, a.source.coeff_values()) >= 0,
        position_of(h.objects@, b.source.coeff_values()) >= 0,
    ensures
        pair_ok(h, position_of(h.objects@, a.source.coeff_values()), position_of(h.objects@, b.source.coeff_values())),
{
    lemma_position_of(h.objects@, a.source.coeff_values());
    lemma_position_of(h.objects@, b.source.coeff_values());
}

/// Whether the endomorphisms `l` and `r` of modules of `hom_sets`, with their
/// cycles, are Szymczak isomorphic: some relation from the module of `l` to
/// that of `r` and some relation back witness it.
pub fn are_szymczak_isomorphic<const N: u16>(
    left_endomorphism_with_cycle: (&Relation<Fin<N>>, &Vec<Relation<Fin<N>>>),
    right_endomorphism_with_cycle: (&Relation<Fin<N>>, &Vec<Relation<Fin<N>>>),
    hom_sets: &Container<N>,
) -> (b: bool)
    requires
        hom_sets.complete(),
        endo_in(*left_endomorphism_with_cycle.0, left_endomorphism_with_cycle.1@, *hom_sets),
        endo_in(*right_endomorphism_with_cycle.0, right_endomorphism_with_cycle.1@, *hom_sets),
        pair_ok(
            *hom_sets,
            position_of(hom_sets.objects@, left_endomorphism_with_cycle.0.source.coeff_values()),
            position_of(hom_sets.objects@, right_endomorphism_with_cycle.0.source.coeff_values()),
        ),
    ensures
        b == szymczak_isomorphic(
            *left_endomorphism_with_cycle.0,
            entries_of(left_endomorphism_with_cycle.1@),
            *right_endomorphism_with_cycle.0,
            entries_of(right_endomorphism_with_cycle.1@),
            *hom_sets,
        ),
{
    let (l, l_cycle) = left_endomorphism_with_cycle;
    let (r, r_cycle) = right_endomorphism_with_cycle;
    let ghost pl = position_of(hom_sets.objects@, l.source.coeff_values());
    let ghost pr = position_of(hom_sets.objects@, r.source.coeff_values());
    let ghost ol = hom_sets.object(pl);
    let ghost or = hom_sets.object(pr);
    proof {
        lemma_position_of(hom_sets.objects@, l.source.coeff_values());
        lemma_position_of(hom_sets.objects@, r.source.coeff_values());
    }
    let lt: &CanonModule<Fin<N>> = &l.target;
    let rs: &CanonModule<Fin<N>> = &r.source;
    let rt: &CanonModule<Fin<N>> = &r.target;
    let ls: &CanonModule<Fin<N>> = &l.source;
    let morphisms_l_to_r = hom_sets.hom_set(lt, rs);
    let morphisms_r_to_l = hom_sets.hom_set(rt, ls);
    let mut x: usize = 0;
    while x < morphisms_l_to_r.len()
        invariant
            hom_sets.complete(),
            pair_ok(*hom_sets, pl, pr),
            *l == *left_endomorphism_with_cycle.0,
            l_cycle@ == left_endomorphism_with_cycle.1@,
            *r == *right_endomorphism_with_cycle.0,
            r_cycle@ == right_endomorphism_with_cycle.1@,
            pl == position_of(hom_sets.objects@, l.source.coeff_values()),
            pr == position_of(hom_sets.objects@, r.source.coeff_values()),
            0 <= pl < hom_sets.objects@.len(),
            0 <= pr < hom_sets.objects@.len(),
            ol == hom_sets.object(pl),
            or == hom_sets.object(pr),
            relates(*l, ol, ol),
            relates(*r, or, or),
            forall|i: int| 0 <= i < l_cycle@.len() ==> relates(#[trigger] l_cycle@[i], ol, ol),
            forall|i: int| 0 <= i < r_cycle@.len() ==> relates(#[trigger] r_cycle@[i], or, or),
            morphisms_l_to_r@ == hom_sets.homs(pl, pr),
            morphisms_r_to_l@ == hom_sets.homs(pr, pl),
            x <= morphisms_l_to_r@.len(),
            forall|i: int, j: int|
                0 <= i < x && 0 <= j < morphisms_r_to_l@.len() ==> !#[trigger] szymczak_witness(
                    *l,
                    entries_of(l_cycle@),
                    *r,
                    entries_of(r_cycle@),
                    morphisms_l_to_r@[i],
                    morphisms_r_to_l@[j],
                ),
        decreases morphisms_l_to_r@.len() - x,
    {
        let mut y: usize = 0;
        while y < morphisms_r_to_l.len()
            invariant
                hom_sets.complete(),
            pair_ok(*hom_sets, pl, pr),
                *l == *left_endomorphism_with_cycle.0,
                l_cycle@ == left_endomorphism_with_cycle.1@,
                *r == *right_endomorphism_with_cycle.0,
                r_cycle@ == right_endomorphism_with_cycle.1@,
                pl == position_of(hom_sets.objects@, l.source.coeff_values()),
                pr == position_of(hom_sets.objects@, r.source.coeff_values()),
                0 <= pl < hom_sets.objects@.len(),
                0 <= pr < hom_sets.objects@.len(),
                ol == hom_sets.object(pl),
                or == hom_sets.object(pr),
                relates(*l, ol, ol),
                relates(*r, or, or),
                forall|i: int| 0 <= i < l_cycle@.len() ==> relates(#[trigger] l_cycle@[i], ol, ol),
                forall|i: int| 0 <= i < r_cycle@.len() ==> relates(#[trigger] r_cycle@[i], or, or),
                morphisms_l_to_r@ == hom_sets.homs(pl, pr),
                morphisms_r_to_l@ == hom_sets.homs(pr, pl),
                x < morphisms_l_to_r@.len(),
                y <= morphisms_r_to_l@.len(),
                forall|j: int|
                    0 <= j < y ==> !#[trigger] szymczak_witness(
                        *l,
                        entries_of(l_cycle@),
                        *r,
                        entries_of(r_cycle@),
                        morphisms_l_to_r@[x as int],
                        morphisms_r_to_l@[j],
                    ),
            decreases morphisms_r_to_l@.len() - y,
        {
            proof {
                assert(relates(morphisms_l_to_r@[x as int], ol, or));
                assert(relates(morphisms_r_to_l@[y as int], or, ol));
            }
            if witness(l, l_cycle, r, r_cycle, &morphisms_l_to_r[x], &morphisms_r_to_l[y], Ghost(ol), Ghost(or)) {
                proof {
                    let objs = hom_sets.objects@;
                    let lt = hom_sets.homs(position_of(objs, l.target.coeff_values()), position_of(objs, r.source.coeff_values()));
                    let rl = hom_sets.homs(position_of(objs, r.target.coeff_values()), position_of(objs, l.source.coeff_values()));
                    assert(szymczak_witness(*l, entries_of(l_cycle@), *r, entries_of(r_cycle@), lt[x as int], rl[y as int]));
                }
                return true;
            }
            y += 1;
        }
        x += 1;
    }
    false
}

/* # raw Szymczak classes */

/// An endomorphism together with its cycle.
pub type EndoWithCycle<const N: u16> = (Relation<Fin<N>>, Vec<Relation<Fin<N>>>);

/// The endomorphisms of `items`.
pub open spec fn endos_of<const N: u16>(items: Seq<EndoWithCycle<N>>) -> Seq<Relation<Fin<N>>> {
    items.map_values(|p: EndoWithCycle<N>| p.0)
}

/// Whether the endomorphisms `l` and `r`, with their cycles, are Szymczak
/// isomorphic in `h`.
pub open spec fn isomorphic<const N: u16>(l: Relation<Fin<N>>, r: Relation<Fin<N>>, h: Container<N>) -> bool {
    szymczak_isomorphic(l, cycle_entries(l), r, cycle_entries(r), h)
}

/// The first of the first `m` classes whose first member the `k`-th
/// endomorphism is Szymczak isomorphic to, or -1 where there is none.
pub open spec fn first_iso_class<const N: u16>(
    classes: Seq<Seq<int>>,
    es: Seq<Relation<Fin<N>>>,
    k: int,
    h: Container<N>,
    m: nat,
) -> int
    decreases m,
{
    if m == 0 {
        -1
    } else {
        let p = first_iso_class(classes, es, k, h, (m - 1) as nat);
        if p >= 0 {
            p
        } else if isomorphic(es[k], es[classes[m - 1][0]], h) {
            m - 1
        } else {
            -1
        }
    }
}

/// The endomorphisms `es`, with their cycles, sorted into classes one after
/// the other: each goes into the first class whose first member it is
/// Szymczak isomorphic to, or else starts a class of its own; one that is
/// the same relation as an earlier one is left out. The classes hold
/// positions in `es`.
pub open spec fn classify<const N: u16>(es: Seq<Relation<Fin<N>>>, h: Container<N>) -> Seq<Seq<int>>
    decreases es.len(),
{
    if es.len() == 0 {
        Seq::empty()
    } else {
        let k = es.len() - 1;
        let prev = classify(es.drop_last(), h);
        if exists|j: int| 0 <= j < k && same_relation(es[j], es[k]) {
            prev
        } else {
            let c = first_iso_class(prev, es, k, h, prev.len());
            if c >= 0 {
                prev.update(c, prev[c].push(k))
            } else {
                prev.push(seq![k])
            }
        }
    }
}

proof fn lemma_first_iso_class<const N: u16>(classes: Seq<Seq<int>>, es: Seq<Relation<Fin<N>>>, k: int, h: Container<N>, m: nat)
    ensures
        -1 <= first_iso_class(classes, es, k, h, m) < m,
    decreases m,
{
    if m > 0 {
        lemma_first_iso_class(classes, es, k, h, (m - 1) as nat);
    }
}

proof fn lemma_first_iso_class_stays<const N: u16>(
    classes: Seq<Seq<int>>,
    es: Seq<Relation<Fin<N>>>,
    k: int,
    h: Container<N>,
    c: nat,
    m: nat,
)
    requires
        c <= m,
        first_iso_class(classes, es, k, h, c) >= 0,
    ensures
        first_iso_class(classes, es, k, h, m) == first_iso_class(classes, es, k, h, c),
    decreases m,
{
    if c < m {
        lemma_first_iso_class_stays(classes, es, k, h, c, (m - 1) as nat);
    }
}

/// Every class is non-empty and holds positions of `es`.
proof fn lemma_classify_wf<const N: u16>(es: Seq<Relation<Fin<N>>>, h: Container<N>)
    ensures
        forall|c: int| 0 <= c < classify(es, h).len() ==> (#[trigger] classify(es, h)[c]).len() >= 1,
        forall|c: int, m: int|
            0 <= c < classify(es, h).len() && 0 <= m < classify(es, h)[c].len() ==> 0 <= #[trigger] classify(es, h)[c][m]
                < es.len(),
    decreases es.len(),
{
    if es.len() > 0 {
        let k = es.len() - 1;
        let prev = classify(es.drop_last(), h);
        lemma_classify_wf(es.drop_last(), h);
        lemma_first_iso_class(prev, es, k, h, prev.len());
        let cl = classify(es, h);
        assert forall|c: int, m: int| 0 <= c < cl.len() && 0 <= m < cl[c].len() implies 0 <= #[trigger] cl[c][m] < es.len() by {
            if c < prev.len() && m < prev[c].len() {
                assert(0 <= prev[c][m] < k);
            }
        }
    }
}

/// Whether the endomorphism of `items[k]` is the same relation as that of an
/// earlier item.
fn repeats_earlier<const N: u16>(items: &Vec<EndoWithCycle<N>>, k: usize) -> (r: bool)
    requires
        k < items@.len(),
    ensures
        r <==> exists|j: int| 0 <= j < k && same_relation(items@[j].0, items@[k as int].0),
{
    let mut j: usize = 0;
    while j < k
        invariant
            k < items@.len(),
            j <= k,
            forall|i: int| 0 <= i < j ==> !same_relation(items@[i].0, items@[k as int].0),
        decreases k - j,
    {
        if items[j].0.same_as(&items[k].0) {
            return true;
        }
        j += 1;
    }
    false
}

/// Every member of `items` is an endomorphism of a module of `h`, with its
/// cycle.
pub open spec fn with_cycles_in<const N: u16>(items: Seq<EndoWithCycle<N>>, h: Container<N>) -> bool {
    forall|k: int|
        0 <= k < items.len() ==> endo_in((#[trigger] items[k]).0, items[k].1@, h) && is_cycle_of(items[k].1@, items[k].0)
}

/// `classes` holds the items as `classify` sorts their endomorphisms.
pub open spec fn sorted_as<const N: u16>(classes: Seq<Vec<EndoWithCycle<N>>>, items: Seq<EndoWithCycle<N>>, cl: Seq<Seq<int>>) -> bool {
    &&& classes.len() == cl.len()
    &&& forall|c: int|
        0 <= c < cl.len() ==> (#[trigger] classes[c])@.len() == cl[c].len() && forall|m: int|
            0 <= m < cl[c].len() ==> #[trigger] classes[c]@[m] == items[cl[c][m]]
}

/// Sorts endomorphisms with their cycles into raw Szymczak classes, one after
/// the other, as `classify` describes.
fn sort_into_classes<const N: u16>(items: Vec<EndoWithCycle<N>>, hom_sets: &Container<N>) -> (classes: Vec<Vec<EndoWithCycle<N>>>)
    requires
        hom_sets.wf(),
        with_cycles_in(items@, *hom_sets),
    ensures
        sorted_as(classes@, items@, classify(endos_of(items@), *hom_sets)),
{
    let ghost all = items@;
    let n = items.len();
    let mut fresh: Vec<bool> = Vec::new();
    let mut k: usize = 0;
    while k < n
        invariant
            n == items@.len(),
            k <= n,
            fresh@.len() == k,
            forall|i: int| 0 <= i < k ==> (#[trigger] fresh@[i] <==> !exists|j: int| 0 <= j < i && same_relation(items@[j].0, items@[i].0)),
        decreases n - k,
    {
        let r = repeats_earlier(&items, k);
        fresh.push(!r);
        k += 1;
    }
    let mut rest = items;
    let mut classes: Vec<Vec<EndoWithCycle<N>>> = Vec::new();
    let mut k: usize = 0;
    while k < n
        invariant
            n == all.len(),
            k <= n,
            fresh@.len() == n,
            forall|i: int| 0 <= i < n ==> (#[trigger] fresh@[i] <==> !exists|j: int| 0 <= j < i && same_relation(all[j].0, all[i].0)),
            rest@ == all.skip(k as int),
            hom_sets.wf(),
            with_cycles_in(all, *hom_sets),
            sorted_as(classes@, all, classify(endos_of(all.take(k as int)), *hom_sets)),
        decreases n - k,
    {
        let ghost es = endos_of(all.take(k + 1));
        let ghost prev = classify(endos_of(all.take(k as int)), *hom_sets);
        proof {
            assert(es.drop_last() =~= endos_of(all.take(k as int)));
            assert(forall|j: int| 0 <= j <= k ==> #[trigger] es[j] == all[j].0);
            lemma_classify_wf(endos_of(all.take(k as int)), *hom_sets);
            assert(all.skip(k as int)[0] == all[k as int]);
        }
        let item = rest.remove(0);
        proof {
            assert(rest@ =~= all.skip(k + 1));
            assert(item == all[k as int]);
            assert(endo_in(all[k as int].0, all[k as int].1@, *hom_sets));
        }
        if fresh[k] {
            let mut target: Option<usize> = None;
            let mut c: usize = 0;
            while c < classes.len() && target.is_none()
                invariant
                    n == all.len(),
                    k < n,
                    c <= classes@.len(),
                    classes@.len() == prev.len(),
                    item == all[k as int],
                    hom_sets.wf(),
                    with_cycles_in(all, *hom_sets),
                    forall|d: int| 0 <= d < prev.len() ==> (#[trigger] prev[d]).len() >= 1,
                    forall|d: int, m: int| 0 <= d < prev.len() && 0 <= m < prev[d].len() ==> 0 <= #[trigger] prev[d][m] < k,
                    sorted_as(classes@, all, prev),
                    forall|j: int| 0 <= j <= k ==> #[trigger] es[j] == all[j].0,
                    target is None ==> first_iso_class(prev, es, k as int, *hom_sets, c as nat) == -1,
                    target is Some ==> first_iso_class(prev, es, k as int, *hom_sets, prev.len()) == target->Some_0
                        && target->Some_0 < prev.len(),
                decreases classes@.len() - c,
            {
                let ghost r0 = prev[c as int][0];
                proof {
                    assert(classes@[c as int]@[0] == all[r0]);
                    assert(0 <= r0 < k);
                    assert(endo_in(all[r0].0, all[r0].1@, *hom_sets));
                    lemma_cycle_entries(all[r0].1@, all[r0].0);
                    lemma_cycle_entries(item.1@, item.0);
                }
                let rep = &classes[c][0];
                proof {
                    lemma_wf_pair_ok(*hom_sets, item.0, rep.0);
                }
                if are_szymczak_isomorphic((&item.0, &item.1), (&rep.0, &rep.1), hom_sets) {
                    proof {
                        assert(es[prev[c as int][0]] == all[r0].0);
                        assert(first_iso_class(prev, es, k as int, *hom_sets, (c + 1) as nat) == c);
                        lemma_first_iso_class_stays(prev, es, k as int, *hom_sets, (c + 1) as nat, prev.len());
                    }
                    target = Some(c);
                } else {
                    proof {
                        assert(es[prev[c as int][0]] == all[r0].0);
                    }
                }
                c += 1;
            }
            proof {
                lemma_first_iso_class(prev, es, k as int, *hom_sets, prev.len());
                assert(!exists|j: int| 0 <= j < k && same_relation(es[j], es[k as int])) by {
                    if exists|j: int| 0 <= j < k && same_relation(es[j], es[k as int]) {
                        let j = choose|j: int| 0 <= j < k && same_relation(es[j], es[k as int]);
                        assert(same_relation(all[j].0, all[k as int].0));
                    }
                }
            }
            let ghost old_classes = classes@;
            match target {
                Some(c) => {
                    let mut class = classes.remove(c);
                    class.push(item);
                    classes.insert(c, class);
                    proof {
                        let cl = prev.update(c as int, prev[c as int].push(k as int));
                        assert(classes@ =~= old_classes.update(c as int, class));
                        assert forall|d: int|
                            0 <= d < cl.len() implies (#[trigger] classes@[d])@.len() == cl[d].len() && forall|m: int|
                                0 <= m < cl[d].len() ==> #[trigger] classes@[d]@[m] == all[cl[d][m]] by {
                            if d == c {
                                assert forall|m: int| 0 <= m < cl[d].len() implies #[trigger] classes@[d]@[m] == all[cl[d][m]] by {
                                    if m < prev[d].len() {
                                        assert(classes@[d]@[m] == old_classes[d]@[m]);
                                    }
                                }
                            } else {
                                assert(classes@[d] == old_classes[d]);
                            }
                        }
                        assert(sorted_as(classes@, all, cl));
                    }
                },
                None => {
                    let mut class: Vec<EndoWithCycle<N>> = Vec::new();
                    class.push(item);
                    classes.push(class);
                    proof {
                        let cl = prev.push(seq![k as int]);
                        assert forall|d: int|
                            0 <= d < cl.len() implies (#[trigger] classes@[d])@.len() == cl[d].len() && forall|m: int|
                                0 <= m < cl[d].len() ==> #[trigger] classes@[d]@[m] == all[cl[d][m]] by {
                            if d < prev.len() {
                                assert(classes@[d] == old_classes[d]);
                            }
                        }
                        assert(sorted_as(classes@, all, cl));
                    }
                },
            }
        } else {
            proof {
                assert(exists|j: int| 0 <= j < k && same_relation(es[j], es[k as int])) by {
                    let j = choose|j: int| 0 <= j < k && same_relation(all[j].0, all[k as int].0);
                    assert(same_relation(es[j], es[k as int]));
                }
            }
        }
        proof {
            assert(all.take(k + 1) =~= all.take((k + 1) as int));
        }
        k += 1;
    }
    proof {
        assert(all.take(n as int) =~= all);
    }
    classes
}

/// `e` is an endomorphism of a module among the objects of `category`.
pub open spec fn is_endo_in<const N: u16>(e: Relation<Fin<N>>, category: Container<N>) -> bool {
    let p = position_of(category.objects@, e.source.coeff_values());
    &&& p >= 0
    &&& e.target.coeff_values() == e.source.coeff_values()
    &&& relates(e, category.object(p), category.object(p))
}

/// `classes` holds the endomorphisms `es` as `classify` sorts them, each
/// with its cycle.
pub open spec fn sorted_into<const N: u16>(classes: Seq<Vec<EndoWithCycle<N>>>, es: Seq<Relation<Fin<N>>>, h: Container<N>) -> bool {
    let cl = classify(es, h);
    &&& classes.len() == cl.len()
    &&& forall|c: int|
        0 <= c < cl.len() ==> (#[trigger] classes[c])@.len() == cl[c].len() && forall|m: int|
            0 <= m < cl[c].len() ==> (#[trigger] classes[c]@[m]).0 == es[cl[c][m]] && is_cycle_of(
                classes[c]@[m].1@,
                classes[c]@[m].0,
            )
}

/// The classes of `classify`, holding the endomorphisms themselves.
pub open spec fn classified<const N: u16>(es: Seq<Relation<Fin<N>>>, h: Container<N>) -> Seq<Seq<Relation<Fin<N>>>> {
    let cl = classify(es, h);
    Seq::new(cl.len(), |c: int| Seq::new(cl[c].len(), |m: int| es[cl[c][m]]))
}

/// Sorts endomorphisms of modules of `hom_sets` into raw Szymczak classes:
/// each, with its cycle, goes into the first class whose first member it is
/// Szymczak isomorphic to, or starts a class of its own, in the order given;
/// one that is the same relation as an earlier one is left out.
pub fn raw_szymczak_functor_final_step<const N: u16>(endomorphisms: Vec<Relation<Fin<N>>>, hom_sets: &Container<N>) -> (classes: Vec<
    Vec<EndoWithCycle<N>>,
>)
    requires
        hom_sets.wf(),
        forall|k: int| 0 <= k < endomorphisms@.len() ==> is_endo_in(#[trigger] endomorphisms@[k], *hom_sets),
    ensures
        sorted_into(classes@, endomorphisms@, *hom_sets),
        classes_in(classes@, *hom_sets),
        classes_view(classes@) == classified(endomorphisms@, *hom_sets),
{
    let ghost es = endomorphisms@;
    let n = endomorphisms.len();
    let mut rest = endomorphisms;
    let mut items: Vec<EndoWithCycle<N>> = Vec::new();
    let mut k: usize = 0;
    while k < n
        invariant
            n == es.len(),
            k <= n,
            rest@ == es.skip(k as int),
            items@.len() == k,
            hom_sets.wf(),
            forall|i: int| 0 <= i < es.len() ==> is_endo_in(#[trigger] es[i], *hom_sets),
            forall|i: int| 0 <= i < k ==> (#[trigger] items@[i]).0 == es[i],
            with_cycles_in(items@, *hom_sets),
        decreases n - k,
    {
        proof {
            assert(es.skip(k as int)[0] == es[k as int]);
        }
        let e = rest.remove(0);
        proof {
            assert(rest@ =~= es.skip(k + 1));
            assert(is_endo_in(es[k as int], *hom_sets));
            let p = position_of(hom_sets.objects@, e.source.coeff_values());
            lemma_position_of(hom_sets.objects@, e.source.coeff_values());
            assert(small(hom_sets.object(p)));
            assert(size(*e.source) == size(hom_sets.object(p)));
            assert(size(*e.target) == size(hom_sets.object(p)));
        }
        let cycle = e.try_cycle().unwrap();
        proof {
            let p = position_of(hom_sets.objects@, e.source.coeff_values());
            assert forall|i: int| 0 <= i < cycle@.len() implies relates(#[trigger] cycle@[i], hom_sets.object(p), hom_sets.object(p)) by {
                assert(is_cycle_of(cycle@, e));
            }
        }
        let ghost before = items@;
        items.push((e, cycle));
        proof {
            assert forall|i: int| 0 <= i < items@.len() implies endo_in((#[trigger] items@[i]).0, items@[i].1@, *hom_sets)
                && is_cycle_of(items@[i].1@, items@[i].0) by {
                if i < before.len() {
                    assert(items@[i] == before[i]);
                }
            }
        }
        k += 1;
    }
    proof {
        assert(endos_of(items@) =~= es);
    }
    let ghost all = items@;
    let classes = sort_into_classes(items, hom_sets);
    proof {
        let cl = classify(es, *hom_sets);
        lemma_classify_wf(es, *hom_sets);
        assert forall|c: int|
            0 <= c < cl.len() implies (#[trigger] classes@[c])@.len() == cl[c].len() && forall|m: int|
                0 <= m < cl[c].len() ==> (#[trigger] classes@[c]@[m]).0 == es[cl[c][m]] && is_cycle_of(
                    classes@[c]@[m].1@,
                    classes@[c]@[m].0,
                ) by {
            assert forall|m: int| 0 <= m < cl[c].len() implies (#[trigger] classes@[c]@[m]).0 == es[cl[c][m]] && is_cycle_of(
                classes@[c]@[m].1@,
                classes@[c]@[m].0,
            ) by {
                assert(0 <= cl[c][m] < es.len());
                assert(classes@[c]@[m] == all[cl[c][m]]);
            }
        }
        assert forall|c: int| 0 <= c < classes@.len() implies with_cycles_in(#[trigger] classes@[c]@, *hom_sets) by {
            assert forall|m: int| 0 <= m < classes@[c]@.len() implies endo_in((#[trigger] classes@[c]@[m]).0, classes@[c]@[m].1@, *hom_sets)
                && is_cycle_of(classes@[c]@[m].1@, classes@[c]@[m].0) by {
                assert(0 <= cl[c][m] < es.len());
                assert(classes@[c]@[m] == all[cl[c][m]]);
            }
        }
        assert forall|c: int| 0 <= c < cl.len() implies #[trigger] classes_view(classes@)[c] == classified(es, *hom_sets)[c] by {
            assert forall|m: int| 0 <= m < cl[c].len() implies #[trigger] classes_view(classes@)[c][m] == classified(es, *hom_sets)[c][m] by {
                assert(classes@[c]@[m] == all[cl[c][m]]);
            }
            assert(classes_view(classes@)[c] =~= classified(es, *hom_sets)[c]);
        }
        assert(classes_view(classes@) =~= classified(es, *hom_sets));
    }
    classes
}

/* # merging raw classes */

/// The endomorphisms of each class of `classes`.
pub open spec fn classes_view<const N: u16>(classes: Seq<Vec<EndoWithCycle<N>>>) -> Seq<Seq<Relation<Fin<N>>>> {
    classes.map_values(|c: Vec<EndoWithCycle<N>>| endos_of(c@))
}

/// Every member of every class is an endomorphism of a module of `h`, with
/// its cycle.
pub open spec fn classes_in<const N: u16>(classes: Seq<Vec<EndoWithCycle<N>>>, h: Container<N>) -> bool {
    forall|c: int| 0 <= c < classes.len() ==> with_cycles_in(#[trigger] classes[c]@, h)
}

/// `s` with its `i`-th item replaced by its last, and the last removed.
pub open spec fn swap_removed<A>(s: Seq<A>, i: int) -> Seq<A> {
    s.update(i, s.last()).drop_last()
}

/// One pass of merging over the right classes `r`, for the left class at
/// `li`, from the right class at `ri` on: where the first members of the two
/// classes are Szymczak isomorphic, both leave their lists (each replaced by
/// the last of its list), their union joins `merged`, and the pass goes on
/// at the same places. `None` where the pass reads past the left list or
/// meets an empty class; the flag tells whether a pair was merged.
pub open spec fn merge_pass<const N: u16>(
    l: Seq<Seq<Relation<Fin<N>>>>,
    r: Seq<Seq<Relation<Fin<N>>>>,
    merged: Seq<Seq<Relation<Fin<N>>>>,
    li: int,
    ri: int,
    lm: bool,
    h: Container<N>,
) -> Option<(Seq<Seq<Relation<Fin<N>>>>, Seq<Seq<Relation<Fin<N>>>>, Seq<Seq<Relation<Fin<N>>>>, bool)>
    decreases r.len() - ri,
{
    if ri < 0 || ri >= r.len() {
        Some((l, r, merged, lm))
    } else if li < 0 || li >= l.len() || l[li].len() == 0 || r[ri].len() == 0 {
        None
    } else if isomorphic(l[li][0], r[ri][0], h) {
        merge_pass(swap_removed(l, li), swap_removed(r, ri), merged.push(l[li] + r[ri]), li, ri, true, h)
    } else {
        merge_pass(l, r, merged, li, ri + 1, lm, h)
    }
}

/// A pass removes a left class for each pair it merges.
pub proof fn lemma_merge_pass_len<const N: u16>(
    l: Seq<Seq<Relation<Fin<N>>>>,
    r: Seq<Seq<Relation<Fin<N>>>>,
    merged: Seq<Seq<Relation<Fin<N>>>>,
    li: int,
    ri: int,
    lm: bool,
    h: Container<N>,
)
    ensures
        merge_pass(l, r, merged, li, ri, lm, h) is Some ==> {
            let out = merge_pass(l, r, merged, li, ri, lm, h)->Some_0;
            &&& out.0.len() <= l.len()
            &&& (out.3 <==> (lm || out.0.len() < l.len()))
            &&& (0 <= li <= l.len() ==> li <= out.0.len())
        },
    decreases r.len() - ri,
{
    if 0 <= ri < r.len() && 0 <= li < l.len() && l[li].len() != 0 && r[ri].len() != 0 {
        if isomorphic(l[li][0], r[ri][0], h) {
            lemma_merge_pass_len(swap_removed(l, li), swap_removed(r, ri), merged.push(l[li] + r[ri]), li, ri, true, h);
        } else {
            lemma_merge_pass_len(l, r, merged, li, ri + 1, lm, h);
        }
    }
}

/// Merging the left classes `l` with the right classes `r`, from the left
/// class at `li` on: a pass for each left class, which stays at the same
/// place after a pass that merged. `None` where a pass is.
pub open spec fn merge_all<const N: u16>(
    l: Seq<Seq<Relation<Fin<N>>>>,
    r: Seq<Seq<Relation<Fin<N>>>>,
    merged: Seq<Seq<Relation<Fin<N>>>>,
    li: int,
    h: Container<N>,
) -> Option<(Seq<Seq<Relation<Fin<N>>>>, Seq<Seq<Relation<Fin<N>>>>, Seq<Seq<Relation<Fin<N>>>>)>
    decreases l.len() - li,
{
    if li < 0 || li >= l.len() {
        Some((l, r, merged))
    } else {
        let pass = merge_pass(l, r, merged, li, 0, false, h);
        if pass is None {
            None
        } else {
            let (l2, r2, m2, lm) = pass->Some_0;
            proof {
                lemma_merge_pass_len(l, r, merged, li, 0, false, h);
            }
            if lm {
                merge_all(l2, r2, m2, li, h)
            } else {
                merge_all(l2, r2, m2, li + 1, h)
            }
        }
    }
}

/// Removing a class keeps every other class, and with it what holds of all.
proof fn lemma_swap_removed<const N: u16>(old: Seq<Vec<EndoWithCycle<N>>>, new: Seq<Vec<EndoWithCycle<N>>>, i: int, h: Container<N>)
    requires
        0 <= i < old.len(),
        new == old.update(i, old.last()).drop_last(),
        classes_in(old, h),
    ensures
        classes_in(new, h),
        classes_view(new) == swap_removed(classes_view(old), i),
{
    assert forall|c: int| 0 <= c < new.len() implies with_cycles_in(#[trigger] new[c]@, h) by {
        if c == i {
            assert(new[c] == old[old.len() - 1]);
        } else {
            assert(new[c] == old[c]);
        }
    }
    assert(classes_view(new) =~= swap_removed(classes_view(old), i));
}

/// Merges two lists of raw Szymczak classes: for each left class in turn,
/// every right class whose first member is Szymczak isomorphic to the first
/// member of the left class at that place is merged with it (both leave
/// their lists, each replaced by the last of its list, and their union joins
/// the merged classes); the place moves on only after a pass that merged
/// nothing. The classes that stay unmerged follow, left then right.
pub fn merge_raw_szymczak_classes<const N: u16>(
    left_raw_szymczak_classes: Vec<Vec<EndoWithCycle<N>>>,
    right_raw_szymczak_classes: Vec<Vec<EndoWithCycle<N>>>,
    hom_sets: &Container<N>,
) -> (merged: Vec<Vec<EndoWithCycle<N>>>)
    requires
        hom_sets.wf(),
        classes_in(left_raw_szymczak_classes@, *hom_sets),
        classes_in(right_raw_szymczak_classes@, *hom_sets),
        merge_all(
            classes_view(left_raw_szymczak_classes@),
            classes_view(right_raw_szymczak_classes@),
            Seq::empty(),
            0,
            *hom_sets,
        ) is Some,
    ensures
        classes_in(merged@, *hom_sets),
        ({
            let (l, r, m) = merge_all(
                classes_view(left_raw_szymczak_classes@),
                classes_view(right_raw_szymczak_classes@),
                Seq::empty(),
                0,
                *hom_sets,
            )->Some_0;
            classes_view(merged@) == m + l + r
        }),
        members(classes_view(merged@)) == members(classes_view(left_raw_szymczak_classes@)).add(
            members(classes_view(right_raw_szymczak_classes@)),
        ),
{
    proof {
        law_merge_keeps_members(
            classes_view(left_raw_szymczak_classes@),
            classes_view(right_raw_szymczak_classes@),
            *hom_sets,
        );
    }
    let ghost result = merge_all(
        classes_view(left_raw_szymczak_classes@),
        classes_view(right_raw_szymczak_classes@),
        Seq::empty(),
        0,
        *hom_sets,
    );
    let mut left = left_raw_szymczak_classes;
    let mut right = right_raw_szymczak_classes;
    let mut merged: Vec<Vec<EndoWithCycle<N>>> = Vec::new();
    proof {
        assert(classes_view(merged@) =~= Seq::<Seq<Relation<Fin<N>>>>::empty());
    }
    let mut left_index: usize = 0;
    let mut left_merged = false;
    while left_index < left.len()
        invariant
            hom_sets.wf(),
            result is Some,
            merge_all(classes_view(left@), classes_view(right@), classes_view(merged@), left_index as int, *hom_sets) == result,
            classes_in(left@, *hom_sets),
            classes_in(right@, *hom_sets),
            classes_in(merged@, *hom_sets),
            !left_merged,
        decreases left@.len() - left_index,
    {
        let ghost l0 = classes_view(left@);
        let ghost r0 = classes_view(right@);
        let ghost m0 = classes_view(merged@);
        let ghost pass = merge_pass(l0, r0, m0, left_index as int, 0, false, *hom_sets);
        proof {
            assert(pass is Some);
            lemma_merge_pass_len(l0, r0, m0, left_index as int, 0, false, *hom_sets);
        }
        let mut right_index: usize = 0;
        let mut right_merged = false;
        while right_index < right.len()
            invariant
                hom_sets.wf(),
                pass is Some,
                merge_pass(classes_view(left@), classes_view(right@), classes_view(merged@), left_index as int, right_index as int, left_merged, *hom_sets)
                    == pass,
                classes_in(left@, *hom_sets),
                classes_in(right@, *hom_sets),
                classes_in(merged@, *hom_sets),
                !right_merged,
            decreases right@.len() - right_index,
        {
            let ghost lv = classes_view(left@);
            let ghost rv = classes_view(right@);
            proof {
                assert(0 <= left_index < lv.len());
                assert(lv[left_index as int].len() > 0 && rv[right_index as int].len() > 0);
                assert(with_cycles_in(left@[left_index as int]@, *hom_sets));
                assert(with_cycles_in(right@[right_index as int]@, *hom_sets));
                let a = left@[left_index as int]@[0];
                let b = right@[right_index as int]@[0];
                assert(endo_in(a.0, a.1@, *hom_sets) && is_cycle_of(a.1@, a.0));
                assert(endo_in(b.0, b.1@, *hom_sets) && is_cycle_of(b.1@, b.0));
                lemma_cycle_entries(a.1@, a.0);
                lemma_cycle_entries(b.1@, b.0);
                assert(lv[left_index as int][0] == a.0);
                assert(rv[right_index as int][0] == b.0);
            }
            let l_first = &left[left_index][0];
            let r_first = &right[right_index][0];
            proof {
                lemma_wf_pair_ok(*hom_sets, l_first.0, r_first.0);
            }
            if are_szymczak_isomorphic((&l_first.0, &l_first.1), (&r_first.0, &r_first.1), hom_sets) {
                let ghost old_left = left@;
                let ghost old_right = right@;
                let ghost old_merged = merged@;
                let mut merged_raw_szymczak_class = left.swap_remove(left_index);
                let mut right_class = right.swap_remove(right_index);
                let ghost lc = merged_raw_szymczak_class@;
                let ghost rc = right_class@;
                merged_raw_szymczak_class.append(&mut right_class);
                merged.push(merged_raw_szymczak_class);
                proof {
                    lemma_swap_removed(old_left, left@, left_index as int, *hom_sets);
                    lemma_swap_removed(old_right, right@, right_index as int, *hom_sets);
                    assert(with_cycles_in(lc, *hom_sets));
                    assert(with_cycles_in(rc, *hom_sets));
                    let last = merged@[merged@.len() - 1];
                    assert(last@ == lc + rc);
                    assert(with_cycles_in(last@, *hom_sets)) by {
                        assert forall|k: int| 0 <= k < last@.len() implies endo_in((#[trigger] last@[k]).0, last@[k].1@, *hom_sets)
                            && is_cycle_of(last@[k].1@, last@[k].0) by {
                            if k < lc.len() {
                                assert(last@[k] == lc[k]);
                            } else {
                                assert(last@[k] == rc[k - lc.len()]);
                            }
                        }
                    }
                    assert forall|c: int| 0 <= c < merged@.len() implies with_cycles_in(#[trigger] merged@[c]@, *hom_sets) by {
                        if c < old_merged.len() {
                            assert(merged@[c] == old_merged[c]);
                        }
                    }
                    assert(endos_of(lc + rc) =~= endos_of(lc) + endos_of(rc));
                    assert(classes_view(merged@) =~= classes_view(old_merged).push(lv[left_index as int] + rv[right_index as int]));
                }
                left_merged = true;
                right_merged = true;
            }
            if right_merged {
                right_merged = false;
            } else {
                right_index += 1;
            }
        }
        if left_merged {
            left_merged = false;
        } else {
            left_index += 1;
        }
    }
    let ghost lf = left@;
    let ghost rf = right@;
    let ghost mf = merged@;
    merged.append(&mut left);
    merged.append(&mut right);
    proof {
        assert(classes_view(merged@) =~= classes_view(mf) + classes_view(lf) + classes_view(rf));
        assert forall|c: int| 0 <= c < merged@.len() implies with_cycles_in(#[trigger] merged@[c]@, *hom_sets) by {
            if c < mf.len() {
                assert(merged@[c] == mf[c]);
            } else if c < mf.len() + lf.len() {
                assert(merged@[c] == lf[c - mf.len()]);
            } else {
                assert(merged@[c] == rf[c - mf.len() - lf.len()]);
            }
        }
    }
    merged
}

/* # the raw classes of many endomorphisms */

/// What `raw_szymczak_functor` gives for the endomorphisms `es`: above the
/// recursion parameter, the classes of the second half merged with those of
/// the first; otherwise the classes of `classify`. `None` where a merge is.
pub open spec fn raw_classes<const N: u16>(es: Seq<Relation<Fin<N>>>, h: Container<N>) -> Option<Seq<Seq<Relation<Fin<N>>>>>
    decreases es.len(),
{
    if es.len() > RECURSION_PARAMETER_SZYMCZAK_FUNCTOR {
        let mid = es.len() / 2;
        let left = raw_classes(es.subrange(mid as int, es.len() as int), h);
        let right = raw_classes(es.subrange(0, mid as int), h);
        if left is Some && right is Some {
            let merged = merge_all(left->Some_0, right->Some_0, Seq::empty(), 0, h);
            if merged is Some {
                let (l, r, m) = merged->Some_0;
                Some(m + l + r)
            } else {
                None
            }
        } else {
            None
        }
    } else {
        Some(classified(es, h))
    }
}

/// Sorts endomorphisms of modules of `hom_sets` into raw Szymczak classes:
/// where there are more than the recursion parameter, those of each half
/// (the second half first) are sorted apart and the classes merged;
/// otherwise as `raw_szymczak_functor_final_step` does.
pub fn raw_szymczak_functor<const N: u16>(endomorphisms: Vec<Relation<Fin<N>>>, hom_sets: &Container<N>) -> (classes: Vec<
    Vec<EndoWithCycle<N>>,
>)
    requires
        hom_sets.wf(),
        forall|k: int| 0 <= k < endomorphisms@.len() ==> is_endo_in(#[trigger] endomorphisms@[k], *hom_sets),
        raw_classes(endomorphisms@, *hom_sets) is Some,
    ensures
        classes_in(classes@, *hom_sets),
        classes_view(classes@) == raw_classes(endomorphisms@, *hom_sets)->Some_0,
        closed_under_composition(*hom_sets) && has_identities(*hom_sets) ==> isomorphism_classes(
            classes_view(classes@),
            endomorphisms@,
            *hom_sets,
        ),
    decreases endomorphisms@.len(),
{
    proof {
        if closed_under_composition(*hom_sets) && has_identities(*hom_sets) {
            law_raw_classes_are_isomorphism_classes(endomorphisms@, *hom_sets);
            law_raw_classes_partition(endomorphisms@, *hom_sets);
        }
    }
    let mut endomorphisms = endomorphisms;
    if endomorphisms.len() > RECURSION_PARAMETER_SZYMCZAK_FUNCTOR {
        let ghost es = endomorphisms@;
        let half = endomorphisms.len() / 2;
        let left_endomorphisms = endomorphisms.split_off(half);
        let right_endomorphisms = endomorphisms;
        proof {
            assert forall|k: int| 0 <= k < left_endomorphisms@.len() implies is_endo_in(#[trigger] left_endomorphisms@[k], *hom_sets) by {
                assert(left_endomorphisms@[k] == es[k + half]);
            }
            assert forall|k: int| 0 <= k < right_endomorphisms@.len() implies is_endo_in(#[trigger] right_endomorphisms@[k], *hom_sets) by {
                assert(right_endomorphisms@[k] == es[k]);
            }
        }
        let left_raw_szymczak_classes = raw_szymczak_functor(left_endomorphisms, hom_sets);
        let right_raw_szymczak_classes = raw_szymczak_functor(right_endomorphisms, hom_sets);
        merge_raw_szymczak_classes(left_raw_szymczak_classes, right_raw_szymczak_classes, hom_sets)
    } else {
        raw_szymczak_functor_final_step(endomorphisms, hom_sets)
    }
}

/* # Szymczak classes by module */

/// The endomorphisms of a raw class, without their cycles.
pub fn drop_cycles<const N: u16>(raw_szymczak_class: Vec<EndoWithCycle<N>>) -> (endomorphisms: Vec<Relation<Fin<N>>>)
    ensures
        endomorphisms@ == endos_of(raw_szymczak_class@),
{
    let ghost all = raw_szymczak_class@;
    let n = raw_szymczak_class.len();
    let mut rest = raw_szymczak_class;
    let mut endomorphisms: Vec<Relation<Fin<N>>> = Vec::new();
    let mut k: usize = 0;
    while k < n
        invariant
            n == all.len(),
            k <= n,
            rest@ == all.skip(k as int),
            endomorphisms@ == endos_of(all.take(k as int)),
        decreases n - k,
    {
        proof {
            assert(all.skip(k as int)[0] == all[k as int]);
        }
        let (e, _cycle) = rest.remove(0);
        proof {
            assert(rest@ =~= all.skip(k + 1));
        }
        endomorphisms.push(e);
        proof {
            assert(endomorphisms@ =~= endos_of(all.take(k + 1)));
        }
        k += 1;
    }
    proof {
        assert(all.take(n as int) =~= all);
    }
    endomorphisms
}

/// The coefficients of a module and the relations grouped under it.
pub type Group<const N: u16> = (Seq<Fin<N>>, Seq<Relation<Fin<N>>>);

/// The position of the first group whose module has the coefficients `c`,
/// or -1 where there is none.
pub open spec fn group_position<const N: u16>(groups: Seq<Group<N>>, c: Seq<Fin<N>>) -> int
    decreases groups.len(),
{
    if groups.len() == 0 {
        -1
    } else {
        let p = group_position(groups.drop_last(), c);
        if p >= 0 {
            p
        } else if groups.last().0 == c {
            groups.len() - 1
        } else {
            -1
        }
    }
}

proof fn lemma_group_position<const N: u16>(groups: Seq<Group<N>>, c: Seq<Fin<N>>)
    ensures
        -1 <= group_position(groups, c) < groups.len(),
        group_position(groups, c) >= 0 ==> groups[group_position(groups, c)].0 == c,
    decreases groups.len(),
{
    if groups.len() > 0 {
        lemma_group_position(groups.drop_last(), c);
        let p = group_position(groups.drop_last(), c);
        if p >= 0 {
            assert(groups[p] == groups.drop_last()[p]);
        }
    }
}

proof fn lemma_group_position_prefix<const N: u16>(groups: Seq<Group<N>>, c: Seq<Fin<N>>, k: int)
    requires
        0 <= k <= groups.len(),
        group_position(groups.take(k), c) >= 0,
    ensures
        group_position(groups, c) == group_position(groups.take(k), c),
    decreases groups.len(),
{
    if k < groups.len() {
        assert(groups.drop_last().take(k) =~= groups.take(k));
        lemma_group_position_prefix(groups.drop_last(), c, k);
    } else {
        assert(groups.take(k) =~= groups);
    }
}

/// The relations `es` grouped by the coefficients of their sources, in the
/// order in which the sources first come; each group keeps the order of `es`.
pub open spec fn group_by_source<const N: u16>(es: Seq<Relation<Fin<N>>>) -> Seq<Group<N>>
    decreases es.len(),
{
    if es.len() == 0 {
        Seq::empty()
    } else {
        let g = group_by_source(es.drop_last());
        let e = es.last();
        let p = group_position(g, e.source.coeff_values());
        if p >= 0 {
            g.update(p, (g[p].0, g[p].1.push(e)))
        } else {
            g.push((e.source.coeff_values(), seq![e]))
        }
    }
}

/// The groups of `groups`, each as the coefficients of its module and its
/// relations.
pub open spec fn groups_view<const N: u16>(groups: Seq<(Arc<CanonModule<Fin<N>>>, Vec<Relation<Fin<N>>>)>) -> Seq<Group<N>> {
    groups.map_values(|g: (Arc<CanonModule<Fin<N>>>, Vec<Relation<Fin<N>>>)| (g.0.coeff_values(), g.1@))
}

/// The endomorphisms of a class, grouped by the module they act on, in the
/// order in which the modules first come.
pub fn sort_by_object<const N: u16>(raw_szymczak_class_without_cycle: Vec<Relation<Fin<N>>>) -> (szymczak_class: Vec<
    (Arc<CanonModule<Fin<N>>>, Vec<Relation<Fin<N>>>),
>)
    ensures
        groups_view(szymczak_class@) == group_by_source(raw_szymczak_class_without_cycle@),
{
    let ghost all = raw_szymczak_class_without_cycle@;
    let n = raw_szymczak_class_without_cycle.len();
    let mut rest = raw_szymczak_class_without_cycle;
    let mut szymczak_class: Vec<(Arc<CanonModule<Fin<N>>>, Vec<Relation<Fin<N>>>)> = Vec::new();
    let mut k: usize = 0;
    while k < n
        invariant
            n == all.len(),
            k <= n,
            rest@ == all.skip(k as int),
            groups_view(szymczak_class@) == group_by_source(all.take(k as int)),
        decreases n - k,
    {
        proof {
            assert(all.skip(k as int)[0] == all[k as int]);
            assert(all.take(k + 1).drop_last() =~= all.take(k as int));
        }
        let endomorphism = rest.remove(0);
        proof {
            assert(rest@ =~= all.skip(k + 1));
        }
        let ghost c = endomorphism.source.coeff_values();
        let ghost g = groups_view(szymczak_class@);
        let source: &CanonModule<Fin<N>> = &endomorphism.source;
        let mut found: Option<usize> = None;
        let mut i: usize = 0;
        while i < szymczak_class.len() && found.is_none()
            invariant
                i <= szymczak_class@.len(),
                g == groups_view(szymczak_class@),
                c == source.coeff_values(),
                found is None ==> group_position(g.take(i as int), c) == -1,
                found is Some ==> found->Some_0 < g.len() && group_position(g, c) == found->Some_0,
            decreases szymczak_class@.len() - i,
        {
            let key: &CanonModule<Fin<N>> = &szymczak_class[i].0;
            proof {
                assert(g.take(i + 1).drop_last() =~= g.take(i as int));
                assert(g[i as int].0 == key.coeff_values());
            }
            if key.eq(source) {
                proof {
                    lemma_group_position_prefix(g, c, i + 1);
                }
                found = Some(i);
            }
            i += 1;
        }
        proof {
            if found is None {
                assert(g.take(i as int) =~= g);
            }
            lemma_group_position(g, c);
        }
        match found {
            Some(p) => {
                let mut group = szymczak_class.remove(p);
                group.1.push(endomorphism);
                szymczak_class.insert(p, group);
                proof {
                    assert(groups_view(szymczak_class@) =~= g.update(p as int, (g[p as int].0, g[p as int].1.push(all[k as int]))));
                }
            },
            None => {
                let key = endomorphism.source();
                let mut members: Vec<Relation<Fin<N>>> = Vec::new();
                members.push(endomorphism);
                szymczak_class.push((key, members));
                proof {
                    assert(groups_view(szymczak_class@) =~= g.push((c, seq![all[k as int]])));
                }
            },
        }
        k += 1;
    }
    proof {
        assert(all.take(n as int) =~= all);
    }
    szymczak_class
}

/* # the Szymczak functor */

/// The Szymczak classes of a category of relations: the endomorphisms of its
/// modules up to Szymczak isomorphism, each class grouped by module.
pub struct SzymczakCategory<const N: u16> {
    pub szymczak_classes: Vec<Vec<(Arc<CanonModule<Fin<N>>>, Vec<Relation<Fin<N>>>)>>,
}

/// The relations of `h` from a module to a module with the same
/// coefficients, among the first `k` pairs of positions (row by row).
pub open spec fn endos_before<const N: u16>(h: Container<N>, k: nat) -> Seq<Relation<Fin<N>>>
    decreases k,
{
    if k == 0 {
        Seq::empty()
    } else {
        let n = h.objects@.len() as int;
        let s = (k - 1) / n;
        let t = (k - 1) % n;
        endos_before(h, (k - 1) as nat) + (if h.object(t).coeff_values() == h.object(s).coeff_values() {
            h.homs(s, t)
        } else {
            Seq::empty()
        })
    }
}

/// The endomorphisms of the modules of `h`: the relations from each module
/// to each module with the same coefficients, by the positions of the pair.
pub open spec fn endomorphisms_of<const N: u16>(h: Container<N>) -> Seq<Relation<Fin<N>>> {
    endos_before(h, (h.objects@.len() * h.objects@.len()) as nat)
}

/// `a` holds copies of the relations of `b`: the same modules at both ends
/// and matrices of the same shape and buffer.
pub open spec fn copies<const N: u16>(a: Seq<Relation<Fin<N>>>, b: Seq<Relation<Fin<N>>>) -> bool {
    &&& a.len() == b.len()
    &&& forall|i: int|
        0 <= i < a.len() ==> {
            &&& *(#[trigger] a[i]).source == *b[i].source
            &&& *a[i].target == *b[i].target
            &&& a[i].matrix.ncols() == b[i].matrix.ncols()
            &&& a[i].matrix.nrows() == b[i].matrix.nrows()
            &&& a[i].matrix.entries() == b[i].matrix.entries()
        }
}

/// The Szymczak classes, each as its groups.
pub open spec fn szymczak_view<const N: u16>(c: SzymczakCategory<N>) -> Seq<Seq<Group<N>>> {
    c.szymczak_classes@.map_values(
        |cl: Vec<(Arc<CanonModule<Fin<N>>>, Vec<Relation<Fin<N>>>)>| groups_view(cl@),
    )
}

/// `result` holds the raw classes of the copies `es` of the endomorphisms of
/// `h`, each grouped by module.
pub open spec fn functor_of<const N: u16>(result: SzymczakCategory<N>, es: Seq<Relation<Fin<N>>>, h: Container<N>) -> bool {
    &&& copies(es, endomorphisms_of(h))
    &&& raw_classes(es, h) is Some
    &&& szymczak_view(result) == raw_classes(es, h)->Some_0.map_values(|c: Seq<Relation<Fin<N>>>| group_by_source(c))
}

impl<const N: u16> SzymczakCategory<N> {
    /// The Szymczak classes of `category`: every relation from a module to a
    /// module with the same coefficients is copied out, the copies are sorted
    /// into raw classes by `raw_szymczak_functor`, and each class loses the
    /// cycles and is grouped by module.
    pub fn szymczak_functor(category: &Container<N>) -> (szymczak: Self)
        requires
            category.wf(),
            raw_classes(endomorphisms_of(*category), *category) is Some,
        ensures
            exists|es: Seq<Relation<Fin<N>>>|
                #[trigger] functor_of(szymczak, es, *category) && (closed_under_composition(*category) && has_identities(
                    *category,
                ) ==> isomorphism_classes(raw_classes(es, *category)->Some_0, es, *category)),
    {
        let ghost h = *category;
        let n = category.objects.len();
        let mut endomorphisms: Vec<Relation<Fin<N>>> = Vec::new();
        let mut s: usize = 0;
        while s < n
            invariant
                h == *category,
                category.wf(),
                n == category.objects@.len(),
                s <= n,
                copies(endomorphisms@, endos_before(h, (s * n) as nat)),
                forall|i: int| 0 <= i < endomorphisms@.len() ==> is_endo_in(#[trigger] endomorphisms@[i], h),
            decreases n - s,
        {
            let mut t: usize = 0;
            while t < n
                invariant
                    h == *category,
                    category.wf(),
                    n == category.objects@.len(),
                    s < n,
                    t <= n,
                    copies(endomorphisms@, endos_before(h, (s * n + t) as nat)),
                    forall|i: int| 0 <= i < endomorphisms@.len() ==> is_endo_in(#[trigger] endomorphisms@[i], h),
                decreases n - t,
            {
                let ghost before = endomorphisms@;
                let ghost k = s * n + t;
                proof {
                    assert(s * n + t < n * n) by (nonlinear_arith)
                        requires
                            s < n,
                            t < n,
                    ;
                    vstd::arithmetic::div_mod::lemma_fundamental_div_mod_converse(k, n as int, s as int, t as int);
                }
                let os: &CanonModule<Fin<N>> = &category.objects[s];
                let ot: &CanonModule<Fin<N>> = &category.objects[t];
                if ot.eq(os) {
                    let homs = &category.hom_sets[s][t];
                    proof {
                        lemma_position_of(h.objects@, os.coeff_values());
                    }
                    let mut j: usize = 0;
                    while j < homs.len()
                        invariant
                            h == *category,
                            category.wf(),
                            s < n,
                            t < n,
                            n == category.objects@.len(),
                            homs@ == h.homs(s as int, t as int),
                            h.object(t as int).coeff_values() == h.object(s as int).coeff_values(),
                            os.coeff_values() == h.object(s as int).coeff_values(),
                            position_of(h.objects@, os.coeff_values()) >= 0,
                            h.object(position_of(h.objects@, os.coeff_values())).coeff_values() == os.coeff_values(),
                            j <= homs@.len(),
                            copies(endomorphisms@, before + homs@.take(j as int)),
                            forall|i: int| 0 <= i < endomorphisms@.len() ==> is_endo_in(#[trigger] endomorphisms@[i], h),
                        decreases homs@.len() - j,
                    {
                        let copy = homs[j].duplicate();
                        proof {
                            assert(relates(homs@[j as int], h.object(s as int), h.object(t as int)));
                            let p = position_of(h.objects@, os.coeff_values());
                            assert(size(h.object(p)) == size(h.object(s as int)));
                            assert(is_endo_in(copy, h));
                        }
                        let ghost prev = endomorphisms@;
                        endomorphisms.push(copy);
                        proof {
                            assert(homs@.take(j + 1) =~= homs@.take(j as int).push(homs@[j as int]));
                            assert(before + homs@.take(j + 1) =~= (before + homs@.take(j as int)).push(homs@[j as int]));
                            assert forall|i: int| 0 <= i < endomorphisms@.len() implies is_endo_in(#[trigger] endomorphisms@[i], h) by {
                                if i < prev.len() {
                                    assert(endomorphisms@[i] == prev[i]);
                                }
                            }
                        }
                        j += 1;
                    }
                    proof {
                        assert(homs@.take(j as int) =~= homs@);
                        assert(endos_before(h, (k + 1) as nat) == endos_before(h, k as nat) + h.homs(s as int, t as int));
                    }
                } else {
                    proof {
                        assert(endos_before(h, (k + 1) as nat) == endos_before(h, k as nat) + Seq::<Relation<Fin<N>>>::empty());
                        assert(before + Seq::<Relation<Fin<N>>>::empty() =~= before);
                    }
                }
                t += 1;
            }
            proof {
                assert(s * n + n == (s + 1) * n) by (nonlinear_arith);
            }
            s += 1;
        }
        let ghost es = endomorphisms@;
        proof {
            assert(copies(es, endomorphisms_of(h)));
            assert forall|i: int| 0 <= i < es.len() implies same_relation(#[trigger] es[i], endomorphisms_of(h)[i]) by {}
            lemma_raw_classes_agree(es, endomorphisms_of(h), h);
            assert(raw_classes(es, h) is Some);
        }
        let raw = raw_szymczak_functor(endomorphisms, category);
        let ghost rv = classes_view(raw@);
        let m = raw.len();
        let mut rest = raw;
        let mut szymczak_classes: Vec<Vec<(Arc<CanonModule<Fin<N>>>, Vec<Relation<Fin<N>>>)>> = Vec::new();
        let ghost raw_all = rest@;
        let mut k: usize = 0;
        while k < m
            invariant
                m == raw_all.len(),
                rv == classes_view(raw_all),
                k <= m,
                rest@ == raw_all.skip(k as int),
                szymczak_classes@.map_values(
                    |cl: Vec<(Arc<CanonModule<Fin<N>>>, Vec<Relation<Fin<N>>>)>| groups_view(cl@),
                ) == rv.take(k as int).map_values(|c: Seq<Relation<Fin<N>>>| group_by_source(c)),
            decreases m - k,
        {
            proof {
                assert(raw_all.skip(k as int)[0] == raw_all[k as int]);
            }
            let class = rest.remove(0);
            proof {
                assert(rest@ =~= raw_all.skip(k + 1));
            }
            let without_cycles = drop_cycles(class);
            let grouped = sort_by_object(without_cycles);
            let ghost prev = szymczak_classes@;
            let ghost pushed = grouped;
            szymczak_classes.push(grouped);
            proof {
                assert(szymczak_classes@ == prev.push(pushed));
                assert(rv[k as int] == endos_of(raw_all[k as int]@));
                let lhs = szymczak_classes@.map_values(
                    |cl: Vec<(Arc<CanonModule<Fin<N>>>, Vec<Relation<Fin<N>>>)>| groups_view(cl@),
                );
                let old_lhs = prev.map_values(
                    |cl: Vec<(Arc<CanonModule<Fin<N>>>, Vec<Relation<Fin<N>>>)>| groups_view(cl@),
                );
                let rhs = rv.take(k + 1).map_values(|c: Seq<Relation<Fin<N>>>| group_by_source(c));
                let old_rhs = rv.take(k as int).map_values(|c: Seq<Relation<Fin<N>>>| group_by_source(c));
                assert(old_rhs.len() == k);
                assert(old_lhs.len() == prev.len());
                assert(prev.len() == k);
                assert forall|i: int| 0 <= i < k + 1 implies lhs[i] == rhs[i] by {
                    if i < k {
                        assert(szymczak_classes@[i] == prev[i]);
                        assert(old_lhs[i] == old_rhs[i]);
                    } else {
                        assert(szymczak_classes@[i] == pushed);
                    }
                }
                assert(szymczak_classes@.map_values(
                    |cl: Vec<(Arc<CanonModule<Fin<N>>>, Vec<Relation<Fin<N>>>)>| groups_view(cl@),
                ) =~= rv.take(k + 1).map_values(|c: Seq<Relation<Fin<N>>>| group_by_source(c)));
            }
            k += 1;
        }
        let szymczak = SzymczakCategory { szymczak_classes };
        proof {
            assert(rv.take(m as int) =~= rv);
            assert(functor_of(szymczak, es, h));
            if closed_under_composition(h) && has_identities(h) {
                assert(isomorphism_classes(raw_classes(es, h)->Some_0, es, h));
            }
        }
        szymczak
    }
}

/* # laws */

/// Szymczak isomorphism is symmetric: where `l` is Szymczak isomorphic to
/// `r` in `h`, `r` is Szymczak isomorphic to `l`.
pub proof fn law_szymczak_symmetric<const N: u16>(l: Relation<Fin<N>>, r: Relation<Fin<N>>, h: Container<N>)
    requires
        isomorphic(l, r, h),
    ensures
        isomorphic(r, l, h),
{
    let lc = cycle_entries(l);
    let rc = cycle_entries(r);
    let l_to_r = h.homs(position_of(h.objects@, l.target.coeff_values()), position_of(h.objects@, r.source.coeff_values()));
    let r_to_l = h.homs(position_of(h.objects@, r.target.coeff_values()), position_of(h.objects@, l.source.coeff_values()));
    let (x, y) = choose|x: int, y: int|
        0 <= x < l_to_r.len() && 0 <= y < r_to_l.len() && #[trigger] szymczak_witness(l, lc, r, rc, l_to_r[x], r_to_l[y]);
    assert(szymczak_witness(r, rc, l, lc, r_to_l[y], l_to_r[x]));
}

/// The matrix of a relation from a module with `n` elements to itself
/// whose buffer is the diagonal relates each element to itself and nothing
/// else.
proof fn lemma_diagonal_related(m: Matrix<bool>, n: int)
    requires
        n >= 1,
        m.ncols() == n,
        m.nrows() == n,
        m.entries() == diagonal(n),
    ensures
        bool_well_shaped(m),
        forall|col: int, row: int| 0 <= col < n && 0 <= row < n ==> (#[trigger] related(m, col, row) <==> col == row),
{
    assert forall|col: int, row: int| 0 <= col < n && 0 <= row < n implies (#[trigger] related(m, col, row) <==> col == row) by {
        assert(row * n + col < n * n) by (nonlinear_arith)
            requires
                0 <= col < n,
                0 <= row < n,
        ;
        vstd::arithmetic::div_mod::lemma_fundamental_div_mod_converse(row * n + col, n, row, col);
    }
}

/// Szymczak isomorphism is reflexive: an endomorphism of a module of `h`
/// whose relations from that module to itself include the identity is
/// Szymczak isomorphic to itself.
pub proof fn law_szymczak_reflexive<const N: u16>(l: Relation<Fin<N>>, h: Container<N>)
    requires
        h.wf(),
        is_endo_in(l, h),
        exists|k: int|
            0 <= k < h.homs(
                position_of(h.objects@, l.source.coeff_values()),
                position_of(h.objects@, l.source.coeff_values()),
            ).len() && (#[trigger] h.homs(
                position_of(h.objects@, l.source.coeff_values()),
                position_of(h.objects@, l.source.coeff_values()),
            )[k]).matrix.entries() == diagonal(size(h.object(position_of(h.objects@, l.source.coeff_values())))),
    ensures
        isomorphic(l, l, h),
{
    let p = position_of(h.objects@, l.source.coeff_values());
    let o = h.object(p);
    let n = size(o);
    let homs = h.homs(p, p);
    let k = choose|k: int| 0 <= k < homs.len() && (#[trigger] homs[k]).matrix.entries() == diagonal(n);
    let id = homs[k];
    lemma_position_of(h.objects@, l.source.coeff_values());
    assert(relates(id, o, o));
    assert(small(o));
    lemma_diagonal_related(id.matrix, n);
    law_compose_bool_identity(id.matrix, l.matrix);
    law_compose_bool_identity(id.matrix, id.matrix);
    lemma_composed_is_product(id.matrix, l.matrix);
    lemma_composed_is_product(l.matrix, id.matrix);
    lemma_composed_is_product(id.matrix, id.matrix);
    let e = l.matrix.entries();
    lemma_cycle_exists(e, n);
    let lc = cycle_entries(l);
    assert(lc.len() >= 1);
    assert(lc[0] == power_at(e, n, 0));
    assert(lc[0] == diagonal(n));
    let ide = id.matrix.entries();
    assert(bool_product(ide, ide, n, n, n) == ide);
    assert(bool_product(bool_product(ide, ide, n, n, n), lc[0], n, n, n) == lc[0]);
    assert(identity_on(bool_product(ide, ide, n, n, n), lc, n));
    assert(szymczak_witness(l, lc, l, lc, id, id));
}

/// The buffers `c` are the powers of `e` (on `n` elements) up to where they
/// first repeat.
pub open spec fn powers_upto(c: Seq<Seq<bool>>, e: Seq<bool>, n: int) -> bool {
    &&& repeats_at(e, n, c.len() as int)
    &&& forall|i: int| 0 <= i < c.len() ==> #[trigger] c[i] == power_at(e, n, i)
}

/// Where `a1` turns `m` into `l`, `b1` turns `l` into `m`, `a1` then `b1`
/// acts as an identity on the cycle of `l`, and `a2` then `b2` acts as one on
/// the cycle of `m`, the composite of `a1` then `a2` followed by that of `b2`
/// then `b1` acts as an identity on the cycle of `l`.
proof fn lemma_identity_on_composite(
    le: Seq<bool>,
    me: Seq<bool>,
    nl: int,
    nm: int,
    nr: int,
    a1: Seq<bool>,
    b1: Seq<bool>,
    a2: Seq<bool>,
    b2: Seq<bool>,
    lc: Seq<Seq<bool>>,
    mc: Seq<Seq<bool>>,
)
    requires
        nl >= 1,
        nm >= 1,
        nr >= 1,
        a1.len() == nl * nm,
        b1.len() == nm * nl,
        bool_product(a1, me, nl, nm, nm) == bool_product(le, a1, nl, nl, nm),
        bool_product(b1, le, nm, nl, nl) == bool_product(me, b1, nm, nm, nl),
        powers_upto(lc, le, nl),
        powers_upto(mc, me, nm),
        identity_on(bool_product(a1, b1, nl, nm, nl), lc, nl),
        identity_on(bool_product(a2, b2, nm, nr, nm), mc, nm),
    ensures
        identity_on(bool_product(bool_product(a1, a2, nl, nm, nr), bool_product(b2, b1, nr, nm, nl), nl, nr, nl), lc, nl),
{
    let pl = |k: nat| power(le, nl, k);
    let pm = |k: nat| power(me, nm, k);
    let ab1 = bool_product(a1, b1, nl, nm, nl);
    let ab2 = bool_product(a2, b2, nm, nr, nm);
    let (i, j) = choose|i: int, j: int|
        0 <= i < mc.len() && 0 <= j < mc.len() && #[trigger] bool_product(ab2, mc[i], nm, nm, nm) == #[trigger] mc[j];
    let (i1, j1) = choose|i: int, j: int|
        0 <= i < lc.len() && 0 <= j < lc.len() && #[trigger] bool_product(ab1, lc[i], nl, nl, nl) == #[trigger] lc[j];
    let t = (i + i1) as nat;
    // the composite, regrouped around a2 then b2
    let a = bool_product(a1, a2, nl, nm, nr);
    let b = bool_product(b2, b1, nr, nm, nl);
    let a1ab2 = bool_product(a1, ab2, nl, nm, nm);
    lemma_product_assoc(a1, a2, b, nl, nm, nr, nl);
    lemma_product_assoc(a2, b2, b1, nm, nr, nm, nl);
    lemma_product_assoc(a1, ab2, b1, nl, nm, nm, nl);
    assert(bool_product(a, b, nl, nr, nl) == bool_product(a1ab2, b1, nl, nm, nl));
    // moving the power of l across b1, and then across a1
    lemma_product_assoc(a1ab2, b1, pl(t), nl, nm, nl, nl);
    lemma_intertwine_powers(b1, me, le, nm, nl, t);
    lemma_product_assoc(a1ab2, pm(t), b1, nl, nm, nm, nl);
    lemma_product_assoc(a1, ab2, pm(t), nl, nm, nm, nm);
    lemma_power_add(me, nm, i as nat, i1 as nat);
    lemma_product_assoc(ab2, pm(i as nat), pm(i1 as nat), nm, nm, nm, nm);
    assert(mc[i] == pm(i as nat));
    assert(mc[j] == pm(j as nat));
    lemma_power_add(me, nm, j as nat, i1 as nat);
    assert(bool_product(ab2, pm(t), nm, nm, nm) == pm((j + i1) as nat));
    lemma_intertwine_powers(a1, le, me, nl, nm, (j + i1) as nat);
    assert(bool_product(a1ab2, pm(t), nl, nm, nm) == bool_product(pl((j + i1) as nat), a1, nl, nl, nm));
    lemma_product_assoc(pl((j + i1) as nat), a1, b1, nl, nl, nm, nl);
    // the power of l, split, and a1 then b1 commuting with it
    lemma_power_add(le, nl, j as nat, i1 as nat);
    lemma_product_assoc(pl(j as nat), pl(i1 as nat), ab1, nl, nl, nl, nl);
    lemma_product_assoc(ab1, le, le, nl, nl, nl, nl);
    lemma_product_assoc(a1, b1, le, nl, nm, nl, nl);
    lemma_product_assoc(a1, me, b1, nl, nm, nm, nl);
    lemma_product_assoc(le, a1, b1, nl, nl, nm, nl);
    assert(bool_product(ab1, le, nl, nl, nl) == bool_product(le, ab1, nl, nl, nl));
    assert(ab1.len() == nl * nl);
    lemma_intertwine_powers(ab1, le, le, nl, nl, i1 as nat);
    assert(lc[i1] == pl(i1 as nat));
    assert(lc[j1] == pl(j1 as nat));
    lemma_power_add(le, nl, j as nat, j1 as nat);
    let x = bool_product(bool_product(a, b, nl, nr, nl), pl(t), nl, nl, nl);
    assert(x == pl((j + j1) as nat));
    // both powers are in the cycle
    lemma_power_in_cycle(le, nl, lc.len() as int, t);
    lemma_power_in_cycle(le, nl, lc.len() as int, (j + j1) as nat);
    let i2 = choose|i2: int| 0 <= i2 < lc.len() && power_at(le, nl, t as int) == #[trigger] power_at(le, nl, i2);
    let j2 = choose|j2: int| 0 <= j2 < lc.len() && power_at(le, nl, (j + j1) as nat as int) == #[trigger] power_at(le, nl, j2);
    assert(bool_product(bool_product(a, b, nl, nr, nl), lc[i2], nl, nl, nl) == lc[j2]);
}

/// Some relation of `h` from the module at `s` to that at `u` has the buffer
/// of the `i`-th relation from `s` to `t` followed by the `j`-th from `t` to
/// `u`.
pub open spec fn has_composite<const N: u16>(h: Container<N>, s: int, t: int, u: int, i: int, j: int) -> bool {
    exists|k: int|
        0 <= k < h.homs(s, u).len() && #[trigger] h.homs(s, u)[k].matrix.entries() == bool_product(
            h.homs(s, t)[i].matrix.entries(),
            h.homs(t, u)[j].matrix.entries(),
            size(h.object(s)),
            size(h.object(t)),
            size(h.object(u)),
        )
}

/// The relations of `h` are closed under composition: for relations `x`
/// from the module at `s` to that at `t`, and `y` from there to the module at
/// `u`, some relation from `s` to `u` has the buffer of `x` then `y`.
pub open spec fn closed_under_composition<const N: u16>(h: Container<N>) -> bool {
    forall|s: int, t: int, u: int, i: int, j: int|
        0 <= s < h.objects@.len() && 0 <= t < h.objects@.len() && 0 <= u < h.objects@.len() && 0 <= i < h.homs(s, t).len()
            && 0 <= j < h.homs(t, u).len() ==> #[trigger] has_composite(h, s, t, u, i, j)
}

/// The cycle of an endomorphism of a module of `h` is the sequence of its
/// powers up to where they first repeat.
proof fn lemma_cycle_powers<const N: u16>(e: Relation<Fin<N>>, h: Container<N>)
    requires
        h.wf(),
        is_endo_in(e, h),
    ensures
        powers_upto(cycle_entries(e), e.matrix.entries(), size(*e.source)),
        size(*e.source) == e.matrix.ncols(),
        1 <= size(*e.source) <= 16,
{
    let p = position_of(h.objects@, e.source.coeff_values());
    lemma_position_of(h.objects@, e.source.coeff_values());
    assert(small(h.object(p)));
    assert(size(*e.source) == size(h.object(p)));
    let n = domain_size(e);
    let ee = e.matrix.entries();
    lemma_cycle_exists(ee, n);
    let len = choose|len: int| repeats_at(ee, n, len);
    assert(cycle_entries(e).len() == len);
}

/// Relations that turn `m` into `l` (`a1`) and `r` into `m` (`a2`) compose
/// to one that turns `r` into `l`.
proof fn lemma_compose_intertwiners(a1: Seq<bool>, a2: Seq<bool>, le: Seq<bool>, me: Seq<bool>, re: Seq<bool>, nl: int, nm: int, nr: int)
    requires
        nl >= 1,
        nm >= 1,
        nr >= 1,
        bool_product(a1, me, nl, nm, nm) == bool_product(le, a1, nl, nl, nm),
        bool_product(a2, re, nm, nr, nr) == bool_product(me, a2, nm, nm, nr),
    ensures
        bool_product(bool_product(a1, a2, nl, nm, nr), re, nl, nr, nr) == bool_product(le, bool_product(a1, a2, nl, nm, nr), nl, nl, nr),
{
    lemma_product_assoc(a1, a2, re, nl, nm, nr, nr);
    lemma_product_assoc(a1, me, a2, nl, nm, nm, nr);
    lemma_product_assoc(le, a1, a2, nl, nl, nm, nr);
}

/// Witnesses of `l` with `m` and of `m` with `r` compose to a witness of `l`
/// with `r`.
proof fn lemma_witness_composite<const N: u16>(
    l: Relation<Fin<N>>,
    m: Relation<Fin<N>>,
    r: Relation<Fin<N>>,
    ra1: Relation<Fin<N>>,
    rb1: Relation<Fin<N>>,
    ra2: Relation<Fin<N>>,
    rb2: Relation<Fin<N>>,
    ra: Relation<Fin<N>>,
    rb: Relation<Fin<N>>,
)
    requires
        1 <= l.matrix.ncols(),
        1 <= m.matrix.ncols(),
        1 <= r.matrix.ncols(),
        powers_upto(cycle_entries(l), l.matrix.entries(), l.matrix.ncols() as int),
        powers_upto(cycle_entries(m), m.matrix.entries(), m.matrix.ncols() as int),
        powers_upto(cycle_entries(r), r.matrix.entries(), r.matrix.ncols() as int),
        ra1.matrix.entries().len() == l.matrix.ncols() * m.matrix.ncols(),
        rb1.matrix.entries().len() == m.matrix.ncols() * l.matrix.ncols(),
        ra2.matrix.entries().len() == m.matrix.ncols() * r.matrix.ncols(),
        rb2.matrix.entries().len() == r.matrix.ncols() * m.matrix.ncols(),
        szymczak_witness(l, cycle_entries(l), m, cycle_entries(m), ra1, rb1),
        szymczak_witness(m, cycle_entries(m), r, cycle_entries(r), ra2, rb2),
        ra.matrix.entries() == bool_product(
            ra1.matrix.entries(),
            ra2.matrix.entries(),
            l.matrix.ncols() as int,
            m.matrix.ncols() as int,
            r.matrix.ncols() as int,
        ),
        rb.matrix.entries() == bool_product(
            rb2.matrix.entries(),
            rb1.matrix.entries(),
            r.matrix.ncols() as int,
            m.matrix.ncols() as int,
            l.matrix.ncols() as int,
        ),
    ensures
        szymczak_witness(l, cycle_entries(l), r, cycle_entries(r), ra, rb),
{
    let (nl, nm, nr) = (l.matrix.ncols() as int, m.matrix.ncols() as int, r.matrix.ncols() as int);
    let (le, me, re) = (l.matrix.entries(), m.matrix.entries(), r.matrix.entries());
    let (a1, b1, a2, b2) = (ra1.matrix.entries(), rb1.matrix.entries(), ra2.matrix.entries(), rb2.matrix.entries());
    lemma_compose_intertwiners(a1, a2, le, me, re, nl, nm, nr);
    lemma_compose_intertwiners(b2, b1, re, me, le, nr, nm, nl);
    lemma_identity_on_composite(le, me, nl, nm, nr, a1, b1, a2, b2, cycle_entries(l), cycle_entries(m));
    lemma_identity_on_composite(re, me, nr, nm, nl, b2, a2, b1, a1, cycle_entries(r), cycle_entries(m));
}

/// Szymczak isomorphism is transitive: in a category of relations that is
/// closed under composition, where the endomorphism `l` is Szymczak
/// isomorphic to `m` and `m` to `r`, `l` is Szymczak isomorphic to `r`.
pub proof fn law_szymczak_transitive<const N: u16>(l: Relation<Fin<N>>, m: Relation<Fin<N>>, r: Relation<Fin<N>>, h: Container<N>)
    requires
        h.wf(),
        closed_under_composition(h),
        is_endo_in(l, h),
        is_endo_in(m, h),
        is_endo_in(r, h),
        isomorphic(l, m, h),
        isomorphic(m, r, h),
    ensures
        isomorphic(l, r, h),
{
    let objs = h.objects@;
    let pl = position_of(objs, l.source.coeff_values());
    let pm = position_of(objs, m.source.coeff_values());
    let pr = position_of(objs, r.source.coeff_values());
    lemma_position_of(objs, l.source.coeff_values());
    lemma_position_of(objs, m.source.coeff_values());
    lemma_position_of(objs, r.source.coeff_values());
    lemma_cycle_powers(l, h);
    lemma_cycle_powers(m, h);
    lemma_cycle_powers(r, h);
    let (lc, mc, rc) = (cycle_entries(l), cycle_entries(m), cycle_entries(r));
    let (x1, y1) = choose|x: int, y: int|
        0 <= x < h.homs(pl, pm).len() && 0 <= y < h.homs(pm, pl).len() && #[trigger] szymczak_witness(
            l,
            lc,
            m,
            mc,
            h.homs(pl, pm)[x],
            h.homs(pm, pl)[y],
        );
    let (x2, y2) = choose|x: int, y: int|
        0 <= x < h.homs(pm, pr).len() && 0 <= y < h.homs(pr, pm).len() && #[trigger] szymczak_witness(
            m,
            mc,
            r,
            rc,
            h.homs(pm, pr)[x],
            h.homs(pr, pm)[y],
        );
    let (ra1, rb1, ra2, rb2) = (h.homs(pl, pm)[x1], h.homs(pm, pl)[y1], h.homs(pm, pr)[x2], h.homs(pr, pm)[y2]);
    assert(relates(ra1, h.object(pl), h.object(pm)));
    assert(relates(rb1, h.object(pm), h.object(pl)));
    assert(relates(ra2, h.object(pm), h.object(pr)));
    assert(relates(rb2, h.object(pr), h.object(pm)));
    let (nl, nm, nr) = (size(h.object(pl)), size(h.object(pm)), size(h.object(pr)));
    let (a1, b1, a2, b2) = (ra1.matrix.entries(), rb1.matrix.entries(), ra2.matrix.entries(), rb2.matrix.entries());
    assert(has_composite(h, pl, pm, pr, x1, x2));
    assert(has_composite(h, pr, pm, pl, y2, y1));
    let ka = choose|k: int|
        0 <= k < h.homs(pl, pr).len() && #[trigger] h.homs(pl, pr)[k].matrix.entries() == bool_product(a1, a2, nl, nm, nr);
    let kb = choose|k: int|
        0 <= k < h.homs(pr, pl).len() && #[trigger] h.homs(pr, pl)[k].matrix.entries() == bool_product(b2, b1, nr, nm, nl);
    lemma_witness_composite(l, m, r, ra1, rb1, ra2, rb2, h.homs(pl, pr)[ka], h.homs(pr, pl)[kb]);
}

/* # the classes are the Szymczak isomorphism classes */

/// Among the relations of `h` from the module at `s` to itself is the
/// identity.
pub open spec fn has_identity<const N: u16>(h: Container<N>, s: int) -> bool {
    exists|k: int| 0 <= k < h.homs(s, s).len() && #[trigger] h.homs(s, s)[k].matrix.entries() == diagonal(size(h.object(s)))
}

/// Every module of `h` has its identity among its relations to itself.
pub open spec fn has_identities<const N: u16>(h: Container<N>) -> bool {
    forall|s: int| 0 <= s < h.objects@.len() ==> #[trigger] has_identity(h, s)
}

/// What the first class found for the `k`-th endomorphism says: its first
/// member is Szymczak isomorphic to the `k`-th endomorphism, and no earlier
/// class's first member is; where none is found, no class's first member is.
proof fn lemma_first_iso_class_meaning<const N: u16>(classes: Seq<Seq<int>>, es: Seq<Relation<Fin<N>>>, k: int, h: Container<N>, m: nat)
    ensures
        first_iso_class(classes, es, k, h, m) >= 0 ==> isomorphic(es[k], es[classes[first_iso_class(classes, es, k, h, m)][0]], h),
        forall|c: int|
            0 <= c < m && (first_iso_class(classes, es, k, h, m) == -1 || c < first_iso_class(classes, es, k, h, m))
                ==> !isomorphic(es[k], es[#[trigger] classes[c][0]], h),
    decreases m,
{
    if m > 0 {
        let m1 = (m - 1) as nat;
        lemma_first_iso_class_meaning(classes, es, k, h, m1);
        lemma_first_iso_class(classes, es, k, h, m1);
        let p = first_iso_class(classes, es, k, h, m1);
        assert forall|c: int|
            0 <= c < m && (first_iso_class(classes, es, k, h, m) == -1 || c < first_iso_class(classes, es, k, h, m))
                implies !isomorphic(es[k], es[#[trigger] classes[c][0]], h) by {
            if c < m1 {
                assert(p == -1 || c < p);
            }
        }
    }
}

/// Every member of a class is Szymczak isomorphic to the first member of
/// its class, and the first members of two classes are not.
pub open spec fn classes_sound<const N: u16>(es: Seq<Relation<Fin<N>>>, cl: Seq<Seq<int>>, h: Container<N>) -> bool {
    &&& forall|c: int, m: int| 0 <= c < cl.len() && 0 <= m < cl[c].len() ==> isomorphic(es[#[trigger] cl[c][m]], es[cl[c][0]], h)
    &&& forall|c: int, d: int|
        0 <= c < cl.len() && 0 <= d < cl.len() && c != d ==> !isomorphic(es[#[trigger] cl[c][0]], es[#[trigger] cl[d][0]], h)
}

/// The reflexivity of Szymczak isomorphism for the endomorphisms of `h`.
proof fn lemma_reflexive_in<const N: u16>(e: Relation<Fin<N>>, h: Container<N>)
    requires
        h.wf(),
        has_identities(h),
        is_endo_in(e, h),
    ensures
        isomorphic(e, e, h),
{
    let p = position_of(h.objects@, e.source.coeff_values());
    lemma_position_of(h.objects@, e.source.coeff_values());
    assert(has_identity(h, p));
    law_szymczak_reflexive(e, h);
}

proof fn lemma_classify_sound<const N: u16>(es: Seq<Relation<Fin<N>>>, h: Container<N>)
    requires
        h.wf(),
        has_identities(h),
        forall|k: int| 0 <= k < es.len() ==> is_endo_in(#[trigger] es[k], h),
    ensures
        classes_sound(es, classify(es, h), h),
    decreases es.len(),
{
    if es.len() > 0 {
        let k = es.len() - 1;
        let d = es.drop_last();
        assert forall|i: int| 0 <= i < d.len() implies is_endo_in(#[trigger] d[i], h) by {
            assert(d[i] == es[i]);
        }
        lemma_classify_sound(d, h);
        lemma_classify_wf(d, h);
        let prev = classify(d, h);
        let cl = classify(es, h);
        assert forall|c: int, m: int| 0 <= c < prev.len() && 0 <= m < prev[c].len() implies es[#[trigger] prev[c][m]] == d[prev[c][m]] by {}
        if !exists|j: int| 0 <= j < k && same_relation(es[j], es[k]) {
            let p = first_iso_class(prev, es, k, h, prev.len());
            lemma_first_iso_class(prev, es, k, h, prev.len());
            lemma_first_iso_class_meaning(prev, es, k, h, prev.len());
            if p >= 0 {
                assert forall|c: int, m: int| 0 <= c < cl.len() && 0 <= m < cl[c].len() implies isomorphic(
                    es[#[trigger] cl[c][m]],
                    es[cl[c][0]],
                    h,
                ) by {
                    if c == p && m == prev[c].len() {
                        assert(cl[c][m] == k);
                    } else {
                        assert(cl[c][m] == prev[c][m]);
                    }
                    assert(cl[c][0] == prev[c][0]);
                }
                assert forall|c: int, e: int|
                    0 <= c < cl.len() && 0 <= e < cl.len() && c != e implies !isomorphic(es[#[trigger] cl[c][0]], es[#[trigger] cl[e][0]], h) by {
                    assert(cl[c][0] == prev[c][0]);
                    assert(cl[e][0] == prev[e][0]);
                }
            } else {
                lemma_reflexive_in(es[k], h);
                assert forall|c: int, m: int| 0 <= c < cl.len() && 0 <= m < cl[c].len() implies isomorphic(
                    es[#[trigger] cl[c][m]],
                    es[cl[c][0]],
                    h,
                ) by {
                    if c < prev.len() {
                        assert(cl[c] == prev[c]);
                    }
                }
                assert forall|c: int, e: int|
                    0 <= c < cl.len() && 0 <= e < cl.len() && c != e implies !isomorphic(es[#[trigger] cl[c][0]], es[#[trigger] cl[e][0]], h) by {
                    if c == prev.len() {
                        assert(cl[c][0] == k);
                        assert(cl[e] == prev[e]);
                        assert(!isomorphic(es[k], es[prev[e][0]], h));
                    } else if e == prev.len() {
                        assert(cl[e][0] == k);
                        assert(cl[c] == prev[c]);
                        assert(!isomorphic(es[k], es[prev[c][0]], h));
                        if isomorphic(es[prev[c][0]], es[k], h) {
                            law_szymczak_symmetric(es[prev[c][0]], es[k], h);
                        }
                    } else {
                        assert(cl[c] == prev[c]);
                        assert(cl[e] == prev[e]);
                    }
                }
            }
        }
    }
}

/// The raw classes are the Szymczak isomorphism classes: in a category of
/// relations that is closed under composition and holds the identity of each
/// of its modules, two endomorphisms that `classify` sorts share a class
/// exactly where they are Szymczak isomorphic.
pub proof fn law_classes_are_isomorphism_classes<const N: u16>(es: Seq<Relation<Fin<N>>>, h: Container<N>)
    requires
        h.wf(),
        closed_under_composition(h),
        has_identities(h),
        forall|k: int| 0 <= k < es.len() ==> is_endo_in(#[trigger] es[k], h),
    ensures
        ({
            let cl = classify(es, h);
            forall|c: int, m: int, d: int, n: int|
                0 <= c < cl.len() && 0 <= m < cl[c].len() && 0 <= d < cl.len() && 0 <= n < cl[d].len() ==> (c == d
                    <==> isomorphic(es[#[trigger] cl[c][m]], es[#[trigger] cl[d][n]], h))
        }),
{
    let cl = classify(es, h);
    lemma_classify_sound(es, h);
    lemma_classify_wf(es, h);
    assert forall|c: int, m: int, d: int, n: int|
        0 <= c < cl.len() && 0 <= m < cl[c].len() && 0 <= d < cl.len() && 0 <= n < cl[d].len() implies (c == d <==> isomorphic(
        es[#[trigger] cl[c][m]],
        es[#[trigger] cl[d][n]],
        h,
    )) by {
        let (x, y) = (es[cl[c][m]], es[cl[d][n]]);
        let (rx, ry) = (es[cl[c][0]], es[cl[d][0]]);
        assert(isomorphic(x, rx, h));
        assert(isomorphic(y, ry, h));
        law_szymczak_symmetric(y, ry, h);
        if c == d {
            law_szymczak_transitive(x, rx, y, h);
        } else if isomorphic(x, y, h) {
            law_szymczak_symmetric(x, rx, h);
            law_szymczak_transitive(rx, x, y, h);
            law_szymczak_transitive(rx, y, ry, h);
            assert(!isomorphic(rx, ry, h));
        }
    }
}

/* # what the sorting reads of the endomorphisms */

/// Two lists of relations agree item by item: the same modules at both
/// ends, by coefficients, and the same matrices.
pub open spec fn all_agree<const N: u16>(a: Seq<Relation<Fin<N>>>, b: Seq<Relation<Fin<N>>>) -> bool {
    a.len() == b.len() && forall|i: int| 0 <= i < a.len() ==> same_relation(#[trigger] a[i], b[i])
}

/// Two lists of classes agree class by class.
pub open spec fn classes_agree<const N: u16>(a: Seq<Seq<Relation<Fin<N>>>>, b: Seq<Seq<Relation<Fin<N>>>>) -> bool {
    a.len() == b.len() && forall|c: int| 0 <= c < a.len() ==> all_agree(#[trigger] a[c], b[c])
}

proof fn lemma_iso_agree<const N: u16>(x: Relation<Fin<N>>, x2: Relation<Fin<N>>, y: Relation<Fin<N>>, y2: Relation<Fin<N>>, h: Container<N>)
    requires
        same_relation(x, x2),
        same_relation(y, y2),
    ensures
        isomorphic(x, y, h) == isomorphic(x2, y2, h),
{
    assert(size(*x.source) == size(*x2.source));
    assert(size(*y.source) == size(*y2.source));
    assert(cycle_entries(x) == cycle_entries(x2));
    assert(cycle_entries(y) == cycle_entries(y2));
    let lr = h.homs(position_of(h.objects@, x.target.coeff_values()), position_of(h.objects@, y.source.coeff_values()));
    let rl = h.homs(position_of(h.objects@, y.target.coeff_values()), position_of(h.objects@, x.source.coeff_values()));
    assert forall|i: int, j: int| 0 <= i < lr.len() && 0 <= j < rl.len() implies #[trigger] szymczak_witness(
        x,
        cycle_entries(x),
        y,
        cycle_entries(y),
        lr[i],
        rl[j],
    ) == szymczak_witness(x2, cycle_entries(x2), y2, cycle_entries(y2), lr[i], rl[j]) by {}
    if isomorphic(x, y, h) {
        let (i, j) = choose|i: int, j: int|
            0 <= i < lr.len() && 0 <= j < rl.len() && #[trigger] szymczak_witness(x, cycle_entries(x), y, cycle_entries(y), lr[i], rl[j]);
        assert(szymczak_witness(x2, cycle_entries(x2), y2, cycle_entries(y2), lr[i], rl[j]));
    }
    if isomorphic(x2, y2, h) {
        let (i, j) = choose|i: int, j: int|
            0 <= i < lr.len() && 0 <= j < rl.len() && #[trigger] szymczak_witness(x2, cycle_entries(x2), y2, cycle_entries(y2), lr[i], rl[j]);
        assert(szymczak_witness(x, cycle_entries(x), y, cycle_entries(y), lr[i], rl[j]));
    }
}

proof fn lemma_first_iso_class_agree<const N: u16>(
    classes: Seq<Seq<int>>,
    es: Seq<Relation<Fin<N>>>,
    es2: Seq<Relation<Fin<N>>>,
    k: int,
    h: Container<N>,
    m: nat,
)
    requires
        all_agree(es, es2),
        0 <= k < es.len(),
        forall|c: int| 0 <= c < m ==> 0 <= #[trigger] classes[c][0] < es.len(),
    ensures
        first_iso_class(classes, es, k, h, m) == first_iso_class(classes, es2, k, h, m),
    decreases m,
{
    if m > 0 {
        lemma_first_iso_class_agree(classes, es, es2, k, h, (m - 1) as nat);
        let r = classes[m - 1][0];
        lemma_iso_agree(es[k], es2[k], es[r], es2[r], h);
    }
}

proof fn lemma_classify_agree<const N: u16>(es: Seq<Relation<Fin<N>>>, es2: Seq<Relation<Fin<N>>>, h: Container<N>)
    requires
        all_agree(es, es2),
    ensures
        classify(es, h) == classify(es2, h),
    decreases es.len(),
{
    if es.len() > 0 {
        let k = es.len() - 1;
        let (d, d2) = (es.drop_last(), es2.drop_last());
        assert forall|i: int| 0 <= i < d.len() implies same_relation(#[trigger] d[i], d2[i]) by {
            assert(same_relation(es[i], es2[i]));
        }
        lemma_classify_agree(d, d2, h);
        lemma_classify_wf(d, h);
        let prev = classify(d, h);
        assert((exists|j: int| 0 <= j < k && same_relation(es[j], es[k])) == (exists|j: int|
            0 <= j < k && same_relation(es2[j], es2[k]))) by {
            if exists|j: int| 0 <= j < k && same_relation(es[j], es[k]) {
                let j = choose|j: int| 0 <= j < k && same_relation(es[j], es[k]);
                assert(same_relation(es[j], es2[j]) && same_relation(es[k], es2[k]));
                assert(same_relation(es2[j], es2[k]));
            }
            if exists|j: int| 0 <= j < k && same_relation(es2[j], es2[k]) {
                let j = choose|j: int| 0 <= j < k && same_relation(es2[j], es2[k]);
                assert(same_relation(es[j], es2[j]) && same_relation(es[k], es2[k]));
                assert(same_relation(es[j], es[k]));
            }
        }
        assert forall|c: int| 0 <= c < prev.len() implies 0 <= #[trigger] prev[c][0] < es.len() by {
            assert(prev[c].len() >= 1);
        }
        lemma_first_iso_class_agree(prev, es, es2, k, h, prev.len());
    }
}

proof fn lemma_classified_agree<const N: u16>(es: Seq<Relation<Fin<N>>>, es2: Seq<Relation<Fin<N>>>, h: Container<N>)
    requires
        all_agree(es, es2),
    ensures
        classes_agree(classified(es, h), classified(es2, h)),
{
    lemma_classify_agree(es, es2, h);
    lemma_classify_wf(es, h);
    let cl = classify(es, h);
    assert forall|c: int| 0 <= c < cl.len() implies all_agree(#[trigger] classified(es, h)[c], classified(es2, h)[c]) by {
        assert forall|m: int| 0 <= m < cl[c].len() implies same_relation(#[trigger] classified(es, h)[c][m], classified(es2, h)[c][m]) by {
            assert(0 <= cl[c][m] < es.len());
            assert(same_relation(es[cl[c][m]], es2[cl[c][m]]));
        }
    }
}

proof fn lemma_agree_concat<const N: u16>(a: Seq<Relation<Fin<N>>>, b: Seq<Relation<Fin<N>>>, a2: Seq<Relation<Fin<N>>>, b2: Seq<Relation<Fin<N>>>)
    requires
        all_agree(a, a2),
        all_agree(b, b2),
    ensures
        all_agree(a + b, a2 + b2),
{
    assert forall|i: int| 0 <= i < (a + b).len() implies same_relation(#[trigger] (a + b)[i], (a2 + b2)[i]) by {
        if i < a.len() {
            assert(same_relation(a[i], a2[i]));
        } else {
            assert(same_relation(b[i - a.len()], b2[i - a.len()]));
        }
    }
}

proof fn lemma_classes_agree_concat<const N: u16>(
    a: Seq<Seq<Relation<Fin<N>>>>,
    b: Seq<Seq<Relation<Fin<N>>>>,
    a2: Seq<Seq<Relation<Fin<N>>>>,
    b2: Seq<Seq<Relation<Fin<N>>>>,
)
    requires
        classes_agree(a, a2),
        classes_agree(b, b2),
    ensures
        classes_agree(a + b, a2 + b2),
{
    assert forall|c: int| 0 <= c < (a + b).len() implies all_agree(#[trigger] (a + b)[c], (a2 + b2)[c]) by {
        if c < a.len() {
            assert(all_agree(a[c], a2[c]));
        } else {
            assert(all_agree(b[c - a.len()], b2[c - a.len()]));
        }
    }
}

proof fn lemma_classes_agree_swap_removed<const N: u16>(a: Seq<Seq<Relation<Fin<N>>>>, a2: Seq<Seq<Relation<Fin<N>>>>, i: int)
    requires
        classes_agree(a, a2),
        0 <= i < a.len(),
    ensures
        classes_agree(swap_removed(a, i), swap_removed(a2, i)),
{
    assert forall|c: int| 0 <= c < swap_removed(a, i).len() implies all_agree(#[trigger] swap_removed(a, i)[c], swap_removed(a2, i)[c]) by {
        if c == i {
            assert(all_agree(a[a.len() - 1], a2[a.len() - 1]));
        } else {
            assert(all_agree(a[c], a2[c]));
        }
    }
}

proof fn lemma_merge_pass_agree<const N: u16>(
    l: Seq<Seq<Relation<Fin<N>>>>,
    r: Seq<Seq<Relation<Fin<N>>>>,
    merged: Seq<Seq<Relation<Fin<N>>>>,
    l2: Seq<Seq<Relation<Fin<N>>>>,
    r2: Seq<Seq<Relation<Fin<N>>>>,
    merged2: Seq<Seq<Relation<Fin<N>>>>,
    li: int,
    ri: int,
    lm: bool,
    h: Container<N>,
)
    requires
        classes_agree(l, l2),
        classes_agree(r, r2),
        classes_agree(merged, merged2),
    ensures
        (merge_pass(l, r, merged, li, ri, lm, h) is Some) == (merge_pass(l2, r2, merged2, li, ri, lm, h) is Some),
        merge_pass(l, r, merged, li, ri, lm, h) is Some ==> {
            let (o, o2) = (merge_pass(l, r, merged, li, ri, lm, h)->Some_0, merge_pass(l2, r2, merged2, li, ri, lm, h)->Some_0);
            &&& classes_agree(o.0, o2.0)
            &&& classes_agree(o.1, o2.1)
            &&& classes_agree(o.2, o2.2)
            &&& o.3 == o2.3
        },
    decreases r.len() - ri,
{
    if 0 <= ri < r.len() && 0 <= li < l.len() && l[li].len() != 0 && r[ri].len() != 0 {
        assert(all_agree(l[li], l2[li]));
        assert(all_agree(r[ri], r2[ri]));
        assert(same_relation(l[li][0], l2[li][0]));
        assert(same_relation(r[ri][0], r2[ri][0]));
        lemma_iso_agree(l[li][0], l2[li][0], r[ri][0], r2[ri][0], h);
        if isomorphic(l[li][0], r[ri][0], h) {
            lemma_classes_agree_swap_removed(l, l2, li);
            lemma_classes_agree_swap_removed(r, r2, ri);
            lemma_agree_concat(l[li], r[ri], l2[li], r2[ri]);
            let (m1, m2) = (merged.push(l[li] + r[ri]), merged2.push(l2[li] + r2[ri]));
            assert forall|c: int| 0 <= c < m1.len() implies all_agree(#[trigger] m1[c], m2[c]) by {
                if c < merged.len() {
                    assert(all_agree(merged[c], merged2[c]));
                }
            }
            lemma_merge_pass_agree(
                swap_removed(l, li),
                swap_removed(r, ri),
                m1,
                swap_removed(l2, li),
                swap_removed(r2, ri),
                m2,
                li,
                ri,
                true,
                h,
            );
        } else {
            lemma_merge_pass_agree(l, r, merged, l2, r2, merged2, li, ri + 1, lm, h);
        }
    } else if 0 <= ri < r.len() {
        if 0 <= li < l.len() {
            assert(all_agree(l[li], l2[li]));
            assert(all_agree(r[ri], r2[ri]));
        }
    }
}

proof fn lemma_merge_all_agree<const N: u16>(
    l: Seq<Seq<Relation<Fin<N>>>>,
    r: Seq<Seq<Relation<Fin<N>>>>,
    merged: Seq<Seq<Relation<Fin<N>>>>,
    l2: Seq<Seq<Relation<Fin<N>>>>,
    r2: Seq<Seq<Relation<Fin<N>>>>,
    merged2: Seq<Seq<Relation<Fin<N>>>>,
    li: int,
    h: Container<N>,
)
    requires
        classes_agree(l, l2),
        classes_agree(r, r2),
        classes_agree(merged, merged2),
    ensures
        (merge_all(l, r, merged, li, h) is Some) == (merge_all(l2, r2, merged2, li, h) is Some),
        merge_all(l, r, merged, li, h) is Some ==> {
            let (o, o2) = (merge_all(l, r, merged, li, h)->Some_0, merge_all(l2, r2, merged2, li, h)->Some_0);
            &&& classes_agree(o.0, o2.0)
            &&& classes_agree(o.1, o2.1)
            &&& classes_agree(o.2, o2.2)
        },
    decreases l.len() - li,
{
    if 0 <= li < l.len() {
        lemma_merge_pass_agree(l, r, merged, l2, r2, merged2, li, 0, false, h);
        lemma_merge_pass_len(l, r, merged, li, 0, false, h);
        let pass = merge_pass(l, r, merged, li, 0, false, h);
        let pass2 = merge_pass(l2, r2, merged2, li, 0, false, h);
        if pass is Some {
            let (a, b, c, lm) = pass->Some_0;
            let (a2, b2, c2, lm2) = pass2->Some_0;
            if lm {
                lemma_merge_all_agree(a, b, c, a2, b2, c2, li, h);
            } else {
                lemma_merge_all_agree(a, b, c, a2, b2, c2, li + 1, h);
            }
        }
    }
}

proof fn lemma_all_agree_subrange<const N: u16>(a: Seq<Relation<Fin<N>>>, a2: Seq<Relation<Fin<N>>>, i: int, j: int)
    requires
        all_agree(a, a2),
        0 <= i <= j <= a.len(),
    ensures
        all_agree(a.subrange(i, j), a2.subrange(i, j)),
{
    assert forall|k: int| 0 <= k < j - i implies same_relation(#[trigger] a.subrange(i, j)[k], a2.subrange(i, j)[k]) by {
        assert(same_relation(a[i + k], a2[i + k]));
    }
}

/// Whether the raw classes exist, and which they are, depends only on what
/// the sorting reads of the endomorphisms.
proof fn lemma_raw_classes_agree<const N: u16>(es: Seq<Relation<Fin<N>>>, es2: Seq<Relation<Fin<N>>>, h: Container<N>)
    requires
        all_agree(es, es2),
    ensures
        (raw_classes(es, h) is Some) == (raw_classes(es2, h) is Some),
        raw_classes(es, h) is Some ==> classes_agree(raw_classes(es, h)->Some_0, raw_classes(es2, h)->Some_0),
    decreases es.len(),
{
    if es.len() > RECURSION_PARAMETER_SZYMCZAK_FUNCTOR {
        let mid = es.len() / 2;
        lemma_all_agree_subrange(es, es2, mid as int, es.len() as int);
        lemma_all_agree_subrange(es, es2, 0, mid as int);
        lemma_raw_classes_agree(es.subrange(mid as int, es.len() as int), es2.subrange(mid as int, es.len() as int), h);
        lemma_raw_classes_agree(es.subrange(0, mid as int), es2.subrange(0, mid as int), h);
        let left = raw_classes(es.subrange(mid as int, es.len() as int), h);
        let right = raw_classes(es.subrange(0, mid as int), h);
        let left2 = raw_classes(es2.subrange(mid as int, es.len() as int), h);
        let right2 = raw_classes(es2.subrange(0, mid as int), h);
        if left is Some && right is Some {
            assert(classes_agree(Seq::<Seq<Relation<Fin<N>>>>::empty(), Seq::<Seq<Relation<Fin<N>>>>::empty()));
            lemma_merge_all_agree(left->Some_0, right->Some_0, Seq::empty(), left2->Some_0, right2->Some_0, Seq::empty(), 0, h);
            let merged = merge_all(left->Some_0, right->Some_0, Seq::empty(), 0, h);
            if merged is Some {
                let (l, r, m) = merged->Some_0;
                let (l2, r2, m2) = merge_all(left2->Some_0, right2->Some_0, Seq::empty(), 0, h)->Some_0;
                lemma_classes_agree_concat(m, l, m2, l2);
                lemma_classes_agree_concat(m + l, r, m2 + l2, r2);
            }
        }
    } else {
        lemma_classified_agree(es, es2, h);
    }
}

/* # every raw class is sound */

/// Every class is non-empty, every member is an endomorphism of a module of
/// `h`, and every member is Szymczak isomorphic to the first member of its
/// class.
pub open spec fn sound_classes<const N: u16>(cl: Seq<Seq<Relation<Fin<N>>>>, h: Container<N>) -> bool {
    forall|c: int|
        0 <= c < cl.len() ==> (#[trigger] cl[c]).len() >= 1 && forall|m: int|
            0 <= m < cl[c].len() ==> is_endo_in(#[trigger] cl[c][m], h) && isomorphic(cl[c][m], cl[c][0], h)
}

proof fn lemma_sound_concat<const N: u16>(a: Seq<Seq<Relation<Fin<N>>>>, b: Seq<Seq<Relation<Fin<N>>>>, h: Container<N>)
    requires
        sound_classes(a, h),
        sound_classes(b, h),
    ensures
        sound_classes(a + b, h),
{
    assert forall|c: int| 0 <= c < (a + b).len() implies (#[trigger] (a + b)[c]).len() >= 1 && forall|m: int|
        0 <= m < (a + b)[c].len() ==> is_endo_in(#[trigger] (a + b)[c][m], h) && isomorphic((a + b)[c][m], (a + b)[c][0], h) by {
        if c < a.len() {
            assert((a + b)[c] == a[c]);
        } else {
            assert((a + b)[c] == b[c - a.len()]);
        }
    }
}

proof fn lemma_sound_swap_removed<const N: u16>(a: Seq<Seq<Relation<Fin<N>>>>, i: int, h: Container<N>)
    requires
        sound_classes(a, h),
        0 <= i < a.len(),
    ensures
        sound_classes(swap_removed(a, i), h),
{
    let b = swap_removed(a, i);
    assert forall|c: int| 0 <= c < b.len() implies (#[trigger] b[c]).len() >= 1 && forall|m: int|
        0 <= m < b[c].len() ==> is_endo_in(#[trigger] b[c][m], h) && isomorphic(b[c][m], b[c][0], h) by {
        if c == i {
            assert(b[c] == a[a.len() - 1]);
        } else {
            assert(b[c] == a[c]);
        }
    }
}

proof fn lemma_merge_pass_sound<const N: u16>(
    l: Seq<Seq<Relation<Fin<N>>>>,
    r: Seq<Seq<Relation<Fin<N>>>>,
    merged: Seq<Seq<Relation<Fin<N>>>>,
    li: int,
    ri: int,
    lm: bool,
    h: Container<N>,
)
    requires
        h.wf(),
        closed_under_composition(h),
        sound_classes(l, h),
        sound_classes(r, h),
        sound_classes(merged, h),
        merge_pass(l, r, merged, li, ri, lm, h) is Some,
    ensures
        ({
            let o = merge_pass(l, r, merged, li, ri, lm, h)->Some_0;
            sound_classes(o.0, h) && sound_classes(o.1, h) && sound_classes(o.2, h)
        }),
    decreases r.len() - ri,
{
    if 0 <= ri < r.len() {
        let (x, y) = (l[li], r[ri]);
        if isomorphic(x[0], y[0], h) {
            let joined = x + y;
            assert(x.len() >= 1 && y.len() >= 1);
            assert(joined[0] == x[0]);
            assert forall|m: int| 0 <= m < joined.len() implies is_endo_in(#[trigger] joined[m], h) && isomorphic(joined[m], joined[0], h) by {
                if m < x.len() {
                    assert(joined[m] == x[m]);
                } else {
                    let e = y[m - x.len()];
                    assert(joined[m] == e);
                    assert(is_endo_in(e, h) && isomorphic(e, y[0], h));
                    assert(is_endo_in(y[0], h) && is_endo_in(x[0], h));
                    law_szymczak_symmetric(x[0], y[0], h);
                    law_szymczak_transitive(e, y[0], x[0], h);
                }
            }
            let m2 = merged.push(joined);
            assert forall|c: int| 0 <= c < m2.len() implies (#[trigger] m2[c]).len() >= 1 && forall|m: int|
                0 <= m < m2[c].len() ==> is_endo_in(#[trigger] m2[c][m], h) && isomorphic(m2[c][m], m2[c][0], h) by {
                if c < merged.len() {
                    assert(m2[c] == merged[c]);
                }
            }
            lemma_sound_swap_removed(l, li, h);
            lemma_sound_swap_removed(r, ri, h);
            lemma_merge_pass_sound(swap_removed(l, li), swap_removed(r, ri), m2, li, ri, true, h);
        } else {
            lemma_merge_pass_sound(l, r, merged, li, ri + 1, lm, h);
        }
    }
}

proof fn lemma_merge_all_sound<const N: u16>(
    l: Seq<Seq<Relation<Fin<N>>>>,
    r: Seq<Seq<Relation<Fin<N>>>>,
    merged: Seq<Seq<Relation<Fin<N>>>>,
    li: int,
    h: Container<N>,
)
    requires
        h.wf(),
        closed_under_composition(h),
        sound_classes(l, h),
        sound_classes(r, h),
        sound_classes(merged, h),
        merge_all(l, r, merged, li, h) is Some,
    ensures
        ({
            let o = merge_all(l, r, merged, li, h)->Some_0;
            sound_classes(o.0, h) && sound_classes(o.1, h) && sound_classes(o.2, h)
        }),
    decreases l.len() - li,
{
    if 0 <= li < l.len() {
        lemma_merge_pass_sound(l, r, merged, li, 0, false, h);
        lemma_merge_pass_len(l, r, merged, li, 0, false, h);
        let (a, b, c, lm) = merge_pass(l, r, merged, li, 0, false, h)->Some_0;
        if lm {
            lemma_merge_all_sound(a, b, c, li, h);
        } else {
            lemma_merge_all_sound(a, b, c, li + 1, h);
        }
    }
}

/// The raw classes are sound: in a category of relations that is closed
/// under composition and holds the identity of each of its modules, every
/// member of a class of `raw_classes` is Szymczak isomorphic to the first
/// member of its class.
pub proof fn law_raw_classes_sound<const N: u16>(es: Seq<Relation<Fin<N>>>, h: Container<N>)
    requires
        h.wf(),
        closed_under_composition(h),
        has_identities(h),
        forall|k: int| 0 <= k < es.len() ==> is_endo_in(#[trigger] es[k], h),
        raw_classes(es, h) is Some,
    ensures
        sound_classes(raw_classes(es, h)->Some_0, h),
    decreases es.len(),
{
    if es.len() > RECURSION_PARAMETER_SZYMCZAK_FUNCTOR {
        let mid = es.len() / 2;
        let (hi, lo) = (es.subrange(mid as int, es.len() as int), es.subrange(0, mid as int));
        assert forall|k: int| 0 <= k < hi.len() implies is_endo_in(#[trigger] hi[k], h) by {
            assert(hi[k] == es[k + mid]);
        }
        assert forall|k: int| 0 <= k < lo.len() implies is_endo_in(#[trigger] lo[k], h) by {
            assert(lo[k] == es[k]);
        }
        law_raw_classes_sound(hi, h);
        law_raw_classes_sound(lo, h);
        let empty = Seq::<Seq<Relation<Fin<N>>>>::empty();
        assert(sound_classes(empty, h));
        lemma_merge_all_sound(raw_classes(hi, h)->Some_0, raw_classes(lo, h)->Some_0, empty, 0, h);
        let (l, r, m) = merge_all(raw_classes(hi, h)->Some_0, raw_classes(lo, h)->Some_0, empty, 0, h)->Some_0;
        lemma_sound_concat(m, l, h);
        lemma_sound_concat(m + l, r, h);
    } else {
        lemma_classify_sound(es, h);
        lemma_classify_wf(es, h);
        let cl = classify(es, h);
        let cd = classified(es, h);
        assert forall|c: int| 0 <= c < cd.len() implies (#[trigger] cd[c]).len() >= 1 && forall|m: int|
            0 <= m < cd[c].len() ==> is_endo_in(#[trigger] cd[c][m], h) && isomorphic(cd[c][m], cd[c][0], h) by {
            assert forall|m: int| 0 <= m < cd[c].len() implies is_endo_in(#[trigger] cd[c][m], h) && isomorphic(cd[c][m], cd[c][0], h) by {
                assert(0 <= cl[c][m] < es.len());
                assert(cd[c][m] == es[cl[c][m]]);
                assert(cd[c][0] == es[cl[c][0]]);
            }
        }
    }
}

/* # the raw classes are the isomorphism classes */

/// No two classes of `a` have Szymczak isomorphic first members.
pub open spec fn firsts_apart<const N: u16>(a: Seq<Seq<Relation<Fin<N>>>>, h: Container<N>) -> bool {
    forall|c: int, d: int|
        0 <= c < a.len() && 0 <= d < a.len() && c != d ==> !isomorphic(#[trigger] a[c][0], #[trigger] a[d][0], h)
}

/// No first member of a class of `a` is Szymczak isomorphic to the first
/// member of a class of `b`.
pub open spec fn firsts_across<const N: u16>(a: Seq<Seq<Relation<Fin<N>>>>, b: Seq<Seq<Relation<Fin<N>>>>, h: Container<N>) -> bool {
    forall|c: int, d: int| 0 <= c < a.len() && 0 <= d < b.len() ==> !isomorphic(#[trigger] a[c][0], #[trigger] b[d][0], h)
}

/// No first member of the first `li` classes of `l` is Szymczak isomorphic
/// to the first member of a class of `r`.
pub open spec fn firsts_done<const N: u16>(l: Seq<Seq<Relation<Fin<N>>>>, r: Seq<Seq<Relation<Fin<N>>>>, li: int, h: Container<N>) -> bool {
    forall|c: int, d: int| 0 <= c < li && c < l.len() && 0 <= d < r.len() ==> !isomorphic(#[trigger] l[c][0], #[trigger] r[d][0], h)
}

proof fn lemma_across_flip<const N: u16>(a: Seq<Seq<Relation<Fin<N>>>>, b: Seq<Seq<Relation<Fin<N>>>>, h: Container<N>)
    requires
        firsts_across(a, b, h),
    ensures
        firsts_across(b, a, h),
{
    assert forall|c: int, d: int| 0 <= c < b.len() && 0 <= d < a.len() implies !isomorphic(#[trigger] b[c][0], #[trigger] a[d][0], h) by {
        if isomorphic(b[c][0], a[d][0], h) {
            law_szymczak_symmetric(b[c][0], a[d][0], h);
        }
    }
}

proof fn lemma_apart_concat<const N: u16>(a: Seq<Seq<Relation<Fin<N>>>>, b: Seq<Seq<Relation<Fin<N>>>>, h: Container<N>)
    requires
        firsts_apart(a, h),
        firsts_apart(b, h),
        firsts_across(a, b, h),
    ensures
        firsts_apart(a + b, h),
{
    lemma_across_flip(a, b, h);
    let ab = a + b;
    assert forall|c: int, d: int| 0 <= c < ab.len() && 0 <= d < ab.len() && c != d implies !isomorphic(#[trigger] ab[c][0], #[trigger] ab[d][0], h) by {
        if c < a.len() {
            assert(ab[c] == a[c]);
        } else {
            assert(ab[c] == b[c - a.len()]);
        }
        if d < a.len() {
            assert(ab[d] == a[d]);
        } else {
            assert(ab[d] == b[d - a.len()]);
        }
    }
}

/// Where a class is removed from `a`, what holds of the first members of
/// its classes holds of the rest.
proof fn lemma_firsts_swap_removed<const N: u16>(a: Seq<Seq<Relation<Fin<N>>>>, i: int, b: Seq<Seq<Relation<Fin<N>>>>, h: Container<N>)
    requires
        0 <= i < a.len(),
    ensures
        firsts_apart(a, h) ==> firsts_apart(swap_removed(a, i), h),
        firsts_across(b, a, h) ==> firsts_across(b, swap_removed(a, i), h),
        firsts_across(a, b, h) ==> firsts_across(swap_removed(a, i), b, h),
        forall|c: int| 0 <= c < swap_removed(a, i).len() ==> #[trigger] swap_removed(a, i)[c] == a[if c == i { a.len() - 1 } else { c }],
{
    let s = swap_removed(a, i);
    assert forall|c: int| 0 <= c < s.len() implies #[trigger] s[c] == a[if c == i { a.len() - 1 } else { c }] by {}
    if firsts_apart(a, h) {
        assert forall|c: int, d: int| 0 <= c < s.len() && 0 <= d < s.len() && c != d implies !isomorphic(#[trigger] s[c][0], #[trigger] s[d][0], h) by {
            let c2 = if c == i { a.len() - 1 } else { c };
            let d2 = if d == i { a.len() - 1 } else { d };
            assert(s[c] == a[c2] && s[d] == a[d2]);
        }
    }
    if firsts_across(b, a, h) {
        assert forall|c: int, d: int| 0 <= c < b.len() && 0 <= d < s.len() implies !isomorphic(#[trigger] b[c][0], #[trigger] s[d][0], h) by {
            let d2 = if d == i { a.len() - 1 } else { d };
            assert(s[d] == a[d2]);
        }
    }
    if firsts_across(a, b, h) {
        assert forall|c: int, d: int| 0 <= c < s.len() && 0 <= d < b.len() implies !isomorphic(#[trigger] s[c][0], #[trigger] b[d][0], h) by {
            let c2 = if c == i { a.len() - 1 } else { c };
            assert(s[c] == a[c2]);
        }
    }
}

proof fn lemma_merge_pass_apart<const N: u16>(
    l: Seq<Seq<Relation<Fin<N>>>>,
    r: Seq<Seq<Relation<Fin<N>>>>,
    merged: Seq<Seq<Relation<Fin<N>>>>,
    li: int,
    ri: int,
    lm: bool,
    h: Container<N>,
)
    requires
        h.wf(),
        closed_under_composition(h),
        sound_classes(l, h),
        sound_classes(r, h),
        firsts_apart(l, h),
        firsts_apart(r, h),
        firsts_apart(merged, h),
        firsts_across(merged, l, h),
        firsts_across(merged, r, h),
        firsts_done(l, r, li, h),
        0 <= ri,
        !lm ==> forall|d: int| 0 <= d < ri && d < r.len() ==> !isomorphic(l[li][0], #[trigger] r[d][0], h),
        merge_pass(l, r, merged, li, ri, lm, h) is Some,
    ensures
        ({
            let o = merge_pass(l, r, merged, li, ri, lm, h)->Some_0;
            &&& firsts_apart(o.0, h)
            &&& firsts_apart(o.1, h)
            &&& firsts_apart(o.2, h)
            &&& firsts_across(o.2, o.0, h)
            &&& firsts_across(o.2, o.1, h)
            &&& firsts_done(o.0, o.1, li, h)
            &&& !o.3 ==> forall|d: int| 0 <= d < o.1.len() ==> !isomorphic(o.0[li][0], #[trigger] o.1[d][0], h)
        }),
    decreases r.len() - ri,
{
    if 0 <= ri < r.len() {
        let (x, y) = (l[li], r[ri]);
        if isomorphic(x[0], y[0], h) {
            let joined = x + y;
            assert(x.len() >= 1 && y.len() >= 1);
            assert(joined[0] == x[0]);
            let m2 = merged.push(joined);
            let l2 = swap_removed(l, li);
            let r2 = swap_removed(r, ri);
            lemma_sound_swap_removed(l, li, h);
            lemma_sound_swap_removed(r, ri, h);
            lemma_firsts_swap_removed(l, li, merged, h);
            lemma_firsts_swap_removed(r, ri, merged, h);
            assert(is_endo_in(x[0], h) && is_endo_in(y[0], h));
            assert forall|c: int, d: int| 0 <= c < m2.len() && 0 <= d < m2.len() && c != d implies !isomorphic(#[trigger] m2[c][0], #[trigger] m2[d][0], h) by {
                if c == merged.len() {
                    assert(m2[d] == merged[d]);
                    assert(!isomorphic(merged[d][0], l[li][0], h));
                    if isomorphic(x[0], merged[d][0], h) {
                        law_szymczak_symmetric(x[0], merged[d][0], h);
                    }
                } else if d == merged.len() {
                    assert(m2[c] == merged[c]);
                    assert(!isomorphic(merged[c][0], l[li][0], h));
                } else {
                    assert(m2[c] == merged[c] && m2[d] == merged[d]);
                }
            }
            assert forall|c: int, d: int| 0 <= c < m2.len() && 0 <= d < l2.len() implies !isomorphic(#[trigger] m2[c][0], #[trigger] l2[d][0], h) by {
                let d2 = if d == li { l.len() - 1 } else { d };
                assert(l2[d] == l[d2]);
                if c < merged.len() {
                    assert(m2[c] == merged[c]);
                } else {
                    assert(d2 != li);
                }
            }
            assert forall|c: int, d: int| 0 <= c < m2.len() && 0 <= d < r2.len() implies !isomorphic(#[trigger] m2[c][0], #[trigger] r2[d][0], h) by {
                let d2 = if d == ri { r.len() - 1 } else { d };
                assert(r2[d] == r[d2]);
                if c < merged.len() {
                    assert(m2[c] == merged[c]);
                } else {
                    assert(d2 != ri);
                    let z = r[d2][0];
                    assert(is_endo_in(z, h));
                    if isomorphic(x[0], z, h) {
                        law_szymczak_symmetric(x[0], y[0], h);
                        law_szymczak_transitive(y[0], x[0], z, h);
                        assert(!isomorphic(r[ri][0], r[d2][0], h));
                    }
                }
            }
            assert forall|c: int, d: int| 0 <= c < li && c < l2.len() && 0 <= d < r2.len() implies !isomorphic(#[trigger] l2[c][0], #[trigger] r2[d][0], h) by {
                let d2 = if d == ri { r.len() - 1 } else { d };
                assert(r2[d] == r[d2]);
                assert(l2[c] == l[c]);
            }
            lemma_merge_pass_apart(l2, r2, m2, li, ri, true, h);
        } else {
            if !lm {
                assert forall|d: int| 0 <= d < ri + 1 && d < r.len() implies !isomorphic(l[li][0], #[trigger] r[d][0], h) by {}
            }
            lemma_merge_pass_apart(l, r, merged, li, ri + 1, lm, h);
        }
    }
}

proof fn lemma_merge_all_apart<const N: u16>(
    l: Seq<Seq<Relation<Fin<N>>>>,
    r: Seq<Seq<Relation<Fin<N>>>>,
    merged: Seq<Seq<Relation<Fin<N>>>>,
    li: int,
    h: Container<N>,
)
    requires
        h.wf(),
        closed_under_composition(h),
        sound_classes(l, h),
        sound_classes(r, h),
        sound_classes(merged, h),
        firsts_apart(l, h),
        firsts_apart(r, h),
        firsts_apart(merged, h),
        firsts_across(merged, l, h),
        firsts_across(merged, r, h),
        firsts_done(l, r, li, h),
        0 <= li,
        merge_all(l, r, merged, li, h) is Some,
    ensures
        ({
            let o = merge_all(l, r, merged, li, h)->Some_0;
            &&& firsts_apart(o.0, h)
            &&& firsts_apart(o.1, h)
            &&& firsts_apart(o.2, h)
            &&& firsts_across(o.2, o.0, h)
            &&& firsts_across(o.2, o.1, h)
            &&& firsts_across(o.0, o.1, h)
        }),
    decreases l.len() - li,
{
    if li < l.len() {
        lemma_merge_pass_apart(l, r, merged, li, 0, false, h);
        lemma_merge_pass_sound(l, r, merged, li, 0, false, h);
        lemma_merge_pass_len(l, r, merged, li, 0, false, h);
        let (a, b, c, lm) = merge_pass(l, r, merged, li, 0, false, h)->Some_0;
        if lm {
            lemma_merge_all_apart(a, b, c, li, h);
        } else {
            assert(firsts_done(a, b, li + 1, h));
            lemma_merge_all_apart(a, b, c, li + 1, h);
        }
    }
}

proof fn lemma_raw_classes_apart<const N: u16>(es: Seq<Relation<Fin<N>>>, h: Container<N>)
    requires
        h.wf(),
        closed_under_composition(h),
        has_identities(h),
        forall|k: int| 0 <= k < es.len() ==> is_endo_in(#[trigger] es[k], h),
        raw_classes(es, h) is Some,
    ensures
        firsts_apart(raw_classes(es, h)->Some_0, h),
    decreases es.len(),
{
    if es.len() > RECURSION_PARAMETER_SZYMCZAK_FUNCTOR {
        let mid = es.len() / 2;
        let (hi, lo) = (es.subrange(mid as int, es.len() as int), es.subrange(0, mid as int));
        assert forall|k: int| 0 <= k < hi.len() implies is_endo_in(#[trigger] hi[k], h) by {
            assert(hi[k] == es[k + mid]);
        }
        assert forall|k: int| 0 <= k < lo.len() implies is_endo_in(#[trigger] lo[k], h) by {
            assert(lo[k] == es[k]);
        }
        lemma_raw_classes_apart(hi, h);
        lemma_raw_classes_apart(lo, h);
        law_raw_classes_sound(hi, h);
        law_raw_classes_sound(lo, h);
        let (lh, rh) = (raw_classes(hi, h)->Some_0, raw_classes(lo, h)->Some_0);
        let empty = Seq::<Seq<Relation<Fin<N>>>>::empty();
        assert(sound_classes(empty, h));
        lemma_merge_all_apart(lh, rh, empty, 0, h);
        let (l, r, m) = merge_all(lh, rh, empty, 0, h)->Some_0;
        lemma_apart_concat(m, l, h);
        assert forall|c: int, d: int| 0 <= c < (m + l).len() && 0 <= d < r.len() implies !isomorphic(#[trigger] (m + l)[c][0], #[trigger] r[d][0], h) by {
            if c < m.len() {
                assert((m + l)[c] == m[c]);
            } else {
                assert((m + l)[c] == l[c - m.len()]);
            }
        }
        lemma_apart_concat(m + l, r, h);
    } else {
        lemma_classify_sound(es, h);
        lemma_classify_wf(es, h);
        let cl = classify(es, h);
        let cd = classified(es, h);
        assert forall|c: int, d: int| 0 <= c < cd.len() && 0 <= d < cd.len() && c != d implies !isomorphic(#[trigger] cd[c][0], #[trigger] cd[d][0], h) by {
            assert(cd[c][0] == es[cl[c][0]]);
            assert(cd[d][0] == es[cl[d][0]]);
        }
    }
}

/// The raw classes are the Szymczak isomorphism classes, however many
/// endomorphisms there are: in a category of relations that is closed under
/// composition and holds the identity of each of its modules, two members of
/// classes of `raw_classes` share a class exactly where they are Szymczak
/// isomorphic.
pub proof fn law_raw_classes_are_isomorphism_classes<const N: u16>(es: Seq<Relation<Fin<N>>>, h: Container<N>)
    requires
        h.wf(),
        closed_under_composition(h),
        has_identities(h),
        forall|k: int| 0 <= k < es.len() ==> is_endo_in(#[trigger] es[k], h),
        raw_classes(es, h) is Some,
    ensures
        ({
            let cl = raw_classes(es, h)->Some_0;
            forall|c: int, m: int, d: int, n: int|
                0 <= c < cl.len() && 0 <= m < cl[c].len() && 0 <= d < cl.len() && 0 <= n < cl[d].len() ==> (c == d
                    <==> isomorphic(#[trigger] cl[c][m], #[trigger] cl[d][n], h))
        }),
{
    let cl = raw_classes(es, h)->Some_0;
    law_raw_classes_sound(es, h);
    lemma_raw_classes_apart(es, h);
    assert forall|c: int, m: int, d: int, n: int|
        0 <= c < cl.len() && 0 <= m < cl[c].len() && 0 <= d < cl.len() && 0 <= n < cl[d].len() implies (c == d <==> isomorphic(
        #[trigger] cl[c][m],
        #[trigger] cl[d][n],
        h,
    )) by {
        let (x, y) = (cl[c][m], cl[d][n]);
        let (rx, ry) = (cl[c][0], cl[d][0]);
        assert(isomorphic(x, rx, h) && is_endo_in(x, h) && is_endo_in(rx, h));
        assert(isomorphic(y, ry, h) && is_endo_in(y, h) && is_endo_in(ry, h));
        law_szymczak_symmetric(y, ry, h);
        if c == d {
            law_szymczak_transitive(x, rx, y, h);
        } else if isomorphic(x, y, h) {
            law_szymczak_symmetric(x, rx, h);
            law_szymczak_transitive(rx, x, y, h);
            law_szymczak_transitive(rx, y, ry, h);
            assert(!isomorphic(rx, ry, h));
        }
    }
}

/* # every endomorphism lands in one class */

/// `e` is a member of a class of `cl`.
pub open spec fn member_of<const N: u16>(cl: Seq<Seq<Relation<Fin<N>>>>, e: Relation<Fin<N>>) -> bool {
    exists|c: int| 0 <= c < cl.len() && #[trigger] cl[c].contains(e)
}

/// `e` is, up to the same relation, a member of a class of `cl`.
pub open spec fn represented<const N: u16>(cl: Seq<Seq<Relation<Fin<N>>>>, e: Relation<Fin<N>>) -> bool {
    exists|c: int, m: int| 0 <= c < cl.len() && 0 <= m < cl[c].len() && same_relation(#[trigger] cl[c][m], e)
}

/// Each of `es` is, up to the same relation, a member of a class of `cl`.
pub open spec fn covers<const N: u16>(cl: Seq<Seq<Relation<Fin<N>>>>, es: Seq<Relation<Fin<N>>>) -> bool {
    forall|k: int| 0 <= k < es.len() ==> #[trigger] represented(cl, es[k])
}

/// `cl` sorts `es` into the Szymczak isomorphism classes of `h`: two members
/// share a class exactly where they are Szymczak isomorphic, and each of
/// `es` is, up to the same relation, a member of a class, and of one only.
pub open spec fn isomorphism_classes<const N: u16>(cl: Seq<Seq<Relation<Fin<N>>>>, es: Seq<Relation<Fin<N>>>, h: Container<N>) -> bool {
    &&& forall|c: int, m: int, d: int, n: int|
        0 <= c < cl.len() && 0 <= m < cl[c].len() && 0 <= d < cl.len() && 0 <= n < cl[d].len() ==> (c == d <==> isomorphic(
            #[trigger] cl[c][m],
            #[trigger] cl[d][n],
            h,
        ))
    &&& covers(cl, es)
    &&& forall|k: int, c: int, m: int, d: int, n: int|
        0 <= k < es.len() && 0 <= c < cl.len() && 0 <= m < cl[c].len() && 0 <= d < cl.len() && 0 <= n < cl[d].len()
            && same_relation(#[trigger] cl[c][m], #[trigger] es[k]) && same_relation(#[trigger] cl[d][n], es[k]) ==> c == d
}

/// `e` is, up to the same relation, one of `es` at a position that `ci`
/// holds.
pub open spec fn represented_at<const N: u16>(ci: Seq<Seq<int>>, es: Seq<Relation<Fin<N>>>, e: Relation<Fin<N>>) -> bool {
    exists|c: int, m: int| 0 <= c < ci.len() && 0 <= m < ci[c].len() && same_relation(es[#[trigger] ci[c][m]], e)
}

proof fn lemma_member_of_swap_removed<const N: u16>(a: Seq<Seq<Relation<Fin<N>>>>, i: int, e: Relation<Fin<N>>)
    requires
        0 <= i < a.len(),
        member_of(a, e),
    ensures
        member_of(swap_removed(a, i), e) || a[i].contains(e),
{
    let c = choose|c: int| 0 <= c < a.len() && #[trigger] a[c].contains(e);
    let s = swap_removed(a, i);
    if c != i {
        if c == a.len() - 1 {
            assert(s[i] == a[c]);
        } else {
            assert(s[c] == a[c]);
        }
    }
}

proof fn lemma_member_of_push<const N: u16>(a: Seq<Seq<Relation<Fin<N>>>>, x: Seq<Relation<Fin<N>>>, e: Relation<Fin<N>>)
    requires
        member_of(a, e) || x.contains(e),
    ensures
        member_of(a.push(x), e),
{
    let b = a.push(x);
    if member_of(a, e) {
        let c = choose|c: int| 0 <= c < a.len() && #[trigger] a[c].contains(e);
        assert(b[c] == a[c]);
    } else {
        assert(b[a.len() as int] == x);
    }
}

proof fn lemma_merge_pass_member<const N: u16>(
    l: Seq<Seq<Relation<Fin<N>>>>,
    r: Seq<Seq<Relation<Fin<N>>>>,
    merged: Seq<Seq<Relation<Fin<N>>>>,
    li: int,
    ri: int,
    lm: bool,
    h: Container<N>,
    e: Relation<Fin<N>>,
)
    requires
        member_of(l, e) || member_of(r, e) || member_of(merged, e),
        merge_pass(l, r, merged, li, ri, lm, h) is Some,
    ensures
        ({
            let o = merge_pass(l, r, merged, li, ri, lm, h)->Some_0;
            member_of(o.0, e) || member_of(o.1, e) || member_of(o.2, e)
        }),
    decreases r.len() - ri,
{
    if 0 <= ri < r.len() {
        let (x, y) = (l[li], r[ri]);
        if isomorphic(x[0], y[0], h) {
            let joined = x + y;
            if x.contains(e) {
                let m = choose|m: int| 0 <= m < x.len() && x[m] == e;
                assert(joined[m] == e);
            } else if y.contains(e) {
                let m = choose|m: int| 0 <= m < y.len() && y[m] == e;
                assert(joined[x.len() + m] == e);
            }
            if member_of(l, e) {
                lemma_member_of_swap_removed(l, li, e);
            }
            if member_of(r, e) {
                lemma_member_of_swap_removed(r, ri, e);
            }
            if member_of(merged, e) || joined.contains(e) {
                lemma_member_of_push(merged, joined, e);
            }
            lemma_merge_pass_member(swap_removed(l, li), swap_removed(r, ri), merged.push(joined), li, ri, true, h, e);
        } else {
            lemma_merge_pass_member(l, r, merged, li, ri + 1, lm, h, e);
        }
    }
}

proof fn lemma_merge_all_member<const N: u16>(
    l: Seq<Seq<Relation<Fin<N>>>>,
    r: Seq<Seq<Relation<Fin<N>>>>,
    merged: Seq<Seq<Relation<Fin<N>>>>,
    li: int,
    h: Container<N>,
    e: Relation<Fin<N>>,
)
    requires
        member_of(l, e) || member_of(r, e) || member_of(merged, e),
        merge_all(l, r, merged, li, h) is Some,
    ensures
        ({
            let o = merge_all(l, r, merged, li, h)->Some_0;
            member_of(o.2 + o.0 + o.1, e)
        }),
    decreases l.len() - li,
{
    if 0 <= li < l.len() {
        lemma_merge_pass_member(l, r, merged, li, 0, false, h, e);
        lemma_merge_pass_len(l, r, merged, li, 0, false, h);
        let (a, b, c, lm) = merge_pass(l, r, merged, li, 0, false, h)->Some_0;
        if lm {
            lemma_merge_all_member(a, b, c, li, h, e);
        } else {
            lemma_merge_all_member(a, b, c, li + 1, h, e);
        }
    } else {
        let all = merged + l + r;
        if member_of(merged, e) {
            let c = choose|c: int| 0 <= c < merged.len() && #[trigger] merged[c].contains(e);
            assert(all[c] == merged[c]);
        } else if member_of(l, e) {
            let c = choose|c: int| 0 <= c < l.len() && #[trigger] l[c].contains(e);
            assert(all[merged.len() + c] == l[c]);
        } else {
            let c = choose|c: int| 0 <= c < r.len() && #[trigger] r[c].contains(e);
            assert(all[merged.len() + l.len() + c] == r[c]);
        }
    }
}

/// `classify` leaves out only endomorphisms that are the same relation as
/// one it keeps.
proof fn lemma_classify_covers<const N: u16>(es: Seq<Relation<Fin<N>>>, h: Container<N>)
    ensures
        forall|k: int| 0 <= k < es.len() ==> #[trigger] represented_at(classify(es, h), es, es[k]),
    decreases es.len(),
{
    if es.len() > 0 {
        let k = es.len() - 1;
        let d = es.drop_last();
        let prev = classify(d, h);
        let cl = classify(es, h);
        lemma_classify_covers(d, h);
        lemma_classify_wf(d, h);
        lemma_first_iso_class(prev, es, k, h, prev.len());
        assert(prev.len() <= cl.len());
        assert forall|c: int, m: int| 0 <= c < prev.len() && 0 <= m < prev[c].len() implies cl[c][m] == prev[c][m] && m < cl[c].len() by {}
        assert forall|j: int| 0 <= j < es.len() implies #[trigger] represented_at(cl, es, es[j]) by {
            if j < k {
                assert(represented_at(prev, d, d[j]));
                let (c, m) = choose|c: int, m: int|
                    0 <= c < prev.len() && 0 <= m < prev[c].len() && same_relation(d[#[trigger] prev[c][m]], d[j]);
                assert(cl[c][m] == prev[c][m]);
                assert(same_relation(es[cl[c][m]], es[j]));
            } else if exists|i: int| 0 <= i < k && same_relation(es[i], es[k]) {
                let i = choose|i: int| 0 <= i < k && same_relation(es[i], es[k]);
                assert(represented_at(prev, d, d[i]));
                let (c, m) = choose|c: int, m: int|
                    0 <= c < prev.len() && 0 <= m < prev[c].len() && same_relation(d[#[trigger] prev[c][m]], d[i]);
                assert(cl[c][m] == prev[c][m]);
                assert(same_relation(es[cl[c][m]], es[j]));
            } else {
                let p = first_iso_class(prev, es, k, h, prev.len());
                if p >= 0 {
                    assert(cl[p][prev[p].len() as int] == k);
                    assert(same_relation(es[cl[p][prev[p].len() as int]], es[j]));
                } else {
                    assert(cl[prev.len() as int][0] == k);
                    assert(same_relation(es[cl[prev.len() as int][0]], es[j]));
                }
            }
        }
    }
}

proof fn lemma_raw_classes_cover<const N: u16>(es: Seq<Relation<Fin<N>>>, h: Container<N>)
    requires
        raw_classes(es, h) is Some,
    ensures
        covers(raw_classes(es, h)->Some_0, es),
    decreases es.len(),
{
    let cl = raw_classes(es, h)->Some_0;
    if es.len() > RECURSION_PARAMETER_SZYMCZAK_FUNCTOR {
        let mid = es.len() / 2;
        let (hi, lo) = (es.subrange(mid as int, es.len() as int), es.subrange(0, mid as int));
        lemma_raw_classes_cover(hi, h);
        lemma_raw_classes_cover(lo, h);
        let (lh, rh) = (raw_classes(hi, h)->Some_0, raw_classes(lo, h)->Some_0);
        let empty = Seq::<Seq<Relation<Fin<N>>>>::empty();
        let (l, r, m) = merge_all(lh, rh, empty, 0, h)->Some_0;
        assert(cl == m + l + r);
        assert forall|k: int| 0 <= k < es.len() implies #[trigger] represented(cl, es[k]) by {
            let x = if k >= mid {
                assert(hi[k - mid] == es[k]);
                assert(represented(lh, hi[k - mid]));
                let (c, n) = choose|c: int, n: int|
                    0 <= c < lh.len() && 0 <= n < lh[c].len() && same_relation(#[trigger] lh[c][n], hi[k - mid]);
                assert(lh[c].contains(lh[c][n]));
                assert(member_of(lh, lh[c][n]));
                lh[c][n]
            } else {
                assert(lo[k] == es[k]);
                assert(represented(rh, lo[k]));
                let (c, n) = choose|c: int, n: int|
                    0 <= c < rh.len() && 0 <= n < rh[c].len() && same_relation(#[trigger] rh[c][n], lo[k]);
                assert(rh[c].contains(rh[c][n]));
                assert(member_of(rh, rh[c][n]));
                rh[c][n]
            };
            assert(same_relation(x, es[k]));
            lemma_merge_all_member(lh, rh, empty, 0, h, x);
            let c = choose|c: int| 0 <= c < cl.len() && #[trigger] cl[c].contains(x);
            let n = choose|n: int| 0 <= n < cl[c].len() && cl[c][n] == x;
            assert(same_relation(cl[c][n], es[k]));
        }
    } else {
        lemma_classify_covers(es, h);
        lemma_classify_wf(es, h);
        let ci = classify(es, h);
        assert forall|k: int| 0 <= k < es.len() implies #[trigger] represented(cl, es[k]) by {
            assert(represented_at(ci, es, es[k]));
            let (c, n) = choose|c: int, n: int|
                0 <= c < ci.len() && 0 <= n < ci[c].len() && same_relation(es[#[trigger] ci[c][n]], es[k]);
            assert(cl[c][n] == es[ci[c][n]]);
        }
    }
}

/// Every endomorphism lands in exactly one raw class: in a category of
/// relations that is closed under composition and holds the identity of each
/// of its modules, each of `es` is, up to the same relation, a member of a
/// class of `raw_classes`, and of one class only.
pub proof fn law_raw_classes_partition<const N: u16>(es: Seq<Relation<Fin<N>>>, h: Container<N>)
    requires
        h.wf(),
        closed_under_composition(h),
        has_identities(h),
        forall|k: int| 0 <= k < es.len() ==> is_endo_in(#[trigger] es[k], h),
        raw_classes(es, h) is Some,
    ensures
        ({
            let cl = raw_classes(es, h)->Some_0;
            &&& covers(cl, es)
            &&& forall|k: int, c: int, m: int, d: int, n: int|
                0 <= k < es.len() && 0 <= c < cl.len() && 0 <= m < cl[c].len() && 0 <= d < cl.len() && 0 <= n < cl[d].len()
                    && same_relation(#[trigger] cl[c][m], #[trigger] es[k]) && same_relation(#[trigger] cl[d][n], es[k]) ==> c == d
        }),
{
    let cl = raw_classes(es, h)->Some_0;
    lemma_raw_classes_cover(es, h);
    law_raw_classes_sound(es, h);
    law_raw_classes_are_isomorphism_classes(es, h);
    assert forall|k: int, c: int, m: int, d: int, n: int|
        0 <= k < es.len() && 0 <= c < cl.len() && 0 <= m < cl[c].len() && 0 <= d < cl.len() && 0 <= n < cl[d].len()
            && same_relation(#[trigger] cl[c][m], #[trigger] es[k]) && same_relation(#[trigger] cl[d][n], es[k]) implies c == d by {
        let (x, y) = (cl[c][m], cl[d][n]);
        assert(is_endo_in(x, h));
        lemma_reflexive_in(x, h);
        assert(same_relation(y, x));
        lemma_iso_agree(x, x, x, y, h);
        assert(isomorphic(x, y, h));
    }
}

/* # merging keeps every entry exactly once */

/// All members of the classes of `cl`, each as often as it occurs.
pub open spec fn members<const N: u16>(cl: Seq<Seq<Relation<Fin<N>>>>) -> vstd::multiset::Multiset<Relation<Fin<N>>>
    decreases cl.len(),
{
    if cl.len() == 0 {
        vstd::multiset::Multiset::empty()
    } else {
        members(cl.drop_last()).add(cl.last().to_multiset())
    }
}

proof fn lemma_members_push<const N: u16>(a: Seq<Seq<Relation<Fin<N>>>>, x: Seq<Relation<Fin<N>>>)
    ensures
        members(a.push(x)) == members(a).add(x.to_multiset()),
{
    assert(a.push(x).drop_last() =~= a);
}

proof fn lemma_members_concat<const N: u16>(a: Seq<Seq<Relation<Fin<N>>>>, b: Seq<Seq<Relation<Fin<N>>>>)
    ensures
        members(a + b) == members(a).add(members(b)),
    decreases b.len(),
{
    broadcast use vstd::multiset::group_multiset_axioms;
    if b.len() == 0 {
        assert(a + b =~= a);
        assert(members(a).add(vstd::multiset::Multiset::empty()) =~= members(a));
    } else {
        lemma_members_concat(a, b.drop_last());
        assert((a + b).drop_last() =~= a + b.drop_last());
        assert((a + b).last() == b.last());
        assert(members(a + b) =~= members(a).add(members(b)));
    }
}

proof fn lemma_members_update<const N: u16>(a: Seq<Seq<Relation<Fin<N>>>>, i: int, x: Seq<Relation<Fin<N>>>)
    requires
        0 <= i < a.len(),
    ensures
        members(a.update(i, x)).add(a[i].to_multiset()) == members(a).add(x.to_multiset()),
    decreases a.len(),
{
    broadcast use vstd::multiset::group_multiset_axioms;
    let b = a.update(i, x);
    if i == a.len() - 1 {
        assert(b.drop_last() =~= a.drop_last());
        assert(b.last() == x);
        assert(members(b) == members(a.drop_last()).add(x.to_multiset()));
        assert(members(a) == members(a.drop_last()).add(a[i].to_multiset()));
        assert(members(b).add(a[i].to_multiset()) =~= members(a).add(x.to_multiset()));
    } else {
        let d = a.drop_last();
        lemma_members_update(d, i, x);
        assert(b.drop_last() =~= d.update(i, x));
        assert(b.last() == a.last());
        assert(d[i] == a[i]);
        let (ai, xm, lm) = (a[i].to_multiset(), x.to_multiset(), a.last().to_multiset());
        assert(members(b) == members(d.update(i, x)).add(lm));
        assert(members(a) == members(d).add(lm));
        assert forall|e: Relation<Fin<N>>| #[trigger] members(b).add(ai).count(e) == members(a).add(xm).count(e) by {
            assert(members(d.update(i, x)).add(ai).count(e) == members(d).add(xm).count(e));
        }
        assert(members(b).add(ai) =~= members(a).add(xm));
    }
}

proof fn lemma_members_swap_removed<const N: u16>(a: Seq<Seq<Relation<Fin<N>>>>, i: int)
    requires
        0 <= i < a.len(),
    ensures
        members(swap_removed(a, i)).add(a[i].to_multiset()) == members(a),
{
    broadcast use vstd::multiset::group_multiset_axioms;
    let b = a.update(i, a.last());
    let sr = swap_removed(a, i);
    let last = a.last().to_multiset();
    let ai = a[i].to_multiset();
    lemma_members_update(a, i, a.last());
    assert(b.len() == a.len());
    assert(b.last() == a.last());
    assert(b.drop_last() == sr);
    assert(members(b) == members(sr).add(last));
    assert forall|e: Relation<Fin<N>>| #[trigger] members(sr).add(ai).count(e) == members(a).count(e) by {
        assert(members(b).add(ai).count(e) == members(a).add(last).count(e));
    }
    assert(members(sr).add(ai) =~= members(a));
}

proof fn lemma_merge_pass_members<const N: u16>(
    l: Seq<Seq<Relation<Fin<N>>>>,
    r: Seq<Seq<Relation<Fin<N>>>>,
    merged: Seq<Seq<Relation<Fin<N>>>>,
    li: int,
    ri: int,
    lm: bool,
    h: Container<N>,
)
    requires
        merge_pass(l, r, merged, li, ri, lm, h) is Some,
    ensures
        ({
            let o = merge_pass(l, r, merged, li, ri, lm, h)->Some_0;
            members(o.0).add(members(o.1)).add(members(o.2)) == members(l).add(members(r)).add(members(merged))
        }),
    decreases r.len() - ri,
{
    broadcast use vstd::multiset::group_multiset_axioms;
    if 0 <= ri < r.len() {
        let (x, y) = (l[li], r[ri]);
        if isomorphic(x[0], y[0], h) {
            let (l2, r2, m2) = (swap_removed(l, li), swap_removed(r, ri), merged.push(x + y));
            lemma_members_swap_removed(l, li);
            lemma_members_swap_removed(r, ri);
            lemma_members_push(merged, x + y);
            vstd::seq_lib::lemma_multiset_commutative(x, y);
            assert(members(l2).add(members(r2)).add(members(m2)) =~= members(l).add(members(r)).add(members(merged)));
            lemma_merge_pass_members(l2, r2, m2, li, ri, true, h);
        } else {
            lemma_merge_pass_members(l, r, merged, li, ri + 1, lm, h);
        }
    }
}

proof fn lemma_merge_all_members<const N: u16>(
    l: Seq<Seq<Relation<Fin<N>>>>,
    r: Seq<Seq<Relation<Fin<N>>>>,
    merged: Seq<Seq<Relation<Fin<N>>>>,
    li: int,
    h: Container<N>,
)
    requires
        merge_all(l, r, merged, li, h) is Some,
    ensures
        ({
            let o = merge_all(l, r, merged, li, h)->Some_0;
            members(o.2 + o.0 + o.1) == members(merged).add(members(l)).add(members(r))
        }),
    decreases l.len() - li,
{
    broadcast use vstd::multiset::group_multiset_axioms;
    if 0 <= li < l.len() {
        lemma_merge_pass_members(l, r, merged, li, 0, false, h);
        lemma_merge_pass_len(l, r, merged, li, 0, false, h);
        let (a, b, c, lm) = merge_pass(l, r, merged, li, 0, false, h)->Some_0;
        if lm {
            lemma_merge_all_members(a, b, c, li, h);
        } else {
            lemma_merge_all_members(a, b, c, li + 1, h);
        }
        let o = merge_all(l, r, merged, li, h)->Some_0;
        let o2 = if lm { merge_all(a, b, c, li, h)->Some_0 } else { merge_all(a, b, c, li + 1, h)->Some_0 };
        assert(o == o2);
        let total = members(o.2 + o.0 + o.1);
        assert(total == members(c).add(members(a)).add(members(b)));
        let before = members(l).add(members(r)).add(members(merged));
        assert(members(a).add(members(b)).add(members(c)) == before);
        assert forall|e: Relation<Fin<N>>| #[trigger] total.count(e) == members(merged).add(members(l)).add(members(r)).count(e) by {
            assert(members(a).add(members(b)).add(members(c)).count(e) == before.count(e));
        }
        assert(total =~= members(merged).add(members(l)).add(members(r)));
    } else {
        lemma_members_concat(merged, l);
        lemma_members_concat(merged + l, r);
    }
}

/// Merging keeps every entry exactly once: the members of the merged
/// classes are those of the left classes and of the right classes, each as
/// often as it occurs there.
pub proof fn law_merge_keeps_members<const N: u16>(l: Seq<Seq<Relation<Fin<N>>>>, r: Seq<Seq<Relation<Fin<N>>>>, h: Container<N>)
    requires
        merge_all(l, r, Seq::empty(), 0, h) is Some,
    ensures
        ({
            let (l2, r2, m) = merge_all(l, r, Seq::empty(), 0, h)->Some_0;
            members(m + l2 + r2) == members(l).add(members(r))
        }),
{
    broadcast use vstd::multiset::group_multiset_axioms;
    lemma_merge_all_members(l, r, Seq::empty(), 0, h);
    let (l2, r2, m) = merge_all(l, r, Seq::empty(), 0, h)->Some_0;
    assert(members(Seq::<Seq<Relation<Fin<N>>>>::empty()) == vstd::multiset::Multiset::<Relation<Fin<N>>>::empty());
    assert(members(m + l2 + r2) =~= members(l).add(members(r)));
}

} // verus!
