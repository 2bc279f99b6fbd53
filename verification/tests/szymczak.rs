use std::sync::Arc;
use szymczak::category::relation::Relation;
use szymczak::category::Container;
use szymczak::matrix::Matrix;
use szymczak::rmodule::canon::CanonModule;
use szymczak::rmodule::ring::Fin;
use szymczak::rmodule::torsion::CoeffTree;
use szymczak::szymczak_category::{
    are_szymczak_isomorphic, drop_cycles, is_identity, merge_raw_szymczak_classes, raw_szymczak_functor,
    raw_szymczak_functor_final_step, sort_by_object, SzymczakCategory,
};

type R = Fin<2>;

fn module_of_size(size: usize) -> Arc<CanonModule<R>> {
    let found = CoeffTree::<R, ()>::all_torsion_coeffs(1)
        .into_iter()
        .map(|torsion_coeffs| CanonModule::new(torsion_coeffs))
        .find(|module| module.cardinality() == size);
    Arc::new(found.unwrap_or_else(|| CanonModule::new(CoeffTree::default())))
}

fn rel(source: &Arc<CanonModule<R>>, target: &Arc<CanonModule<R>>, raw: Vec<u8>) -> Relation<R> {
    let cols = source.cardinality() as u8;
    let rows = target.cardinality() as u8;
    Relation {
        source: Arc::clone(source),
        target: Arc::clone(target),
        matrix: Matrix::from_buffer(raw.into_iter().map(|entry| entry == 1).collect(), cols, rows),
    }
}

/// The category of relations between the trivial group and Z2: every
/// submodule of each product, as a matrix.
fn z1_z2_category() -> (Arc<CanonModule<R>>, Arc<CanonModule<R>>, Container<2>) {
    let z1 = module_of_size(1);
    let z2 = module_of_size(2);
    assert_eq!(z1.cardinality(), 1);
    assert_eq!(z2.cardinality(), 2);
    let h11 = vec![rel(&z1, &z1, vec![1])];
    let h12 = vec![rel(&z1, &z2, vec![1, 0]), rel(&z1, &z2, vec![1, 1])];
    let h21 = vec![rel(&z2, &z1, vec![1, 0]), rel(&z2, &z1, vec![1, 1])];
    let h22 = vec![
        rel(&z2, &z2, vec![1, 0, 0, 0]),
        rel(&z2, &z2, vec![1, 1, 0, 0]),
        rel(&z2, &z2, vec![1, 0, 1, 0]),
        rel(&z2, &z2, vec![1, 0, 0, 1]),
        rel(&z2, &z2, vec![1, 1, 1, 1]),
    ];
    let container = Container {
        objects: vec![Arc::clone(&z1), Arc::clone(&z2)],
        hom_sets: vec![vec![h11, h12], vec![h21, h22]],
    };
    (z1, z2, container)
}

#[test]
fn identity_relations_are_diagonal() {
    let z2 = module_of_size(2);
    let id = Relation::identity(Arc::clone(&z2));
    assert_eq!(id.matrix.buffer(), vec![true, false, false, true]);
    assert!(*id.source == *z2);
    assert!(*id.target == *z2);
}

#[test]
fn cycles_of_endomorphisms() {
    let (z1, z2, _) = z1_z2_category();
    let top_z1 = rel(&z1, &z1, vec![1]);
    let cycle = top_z1.try_cycle().expect("an endomorphism has a cycle");
    assert_eq!(cycle.len(), 1);
    assert_eq!(cycle[0].matrix.buffer(), vec![true]);

    let top_z2 = rel(&z2, &z2, vec![1, 1, 1, 1]);
    let cycle = top_z2.try_cycle().expect("an endomorphism has a cycle");
    assert_eq!(cycle.len(), 2);
    assert_eq!(cycle[0].matrix.buffer(), vec![true, false, false, true]);
    assert_eq!(cycle[1], top_z2);

    let identity = rel(&z2, &z2, vec![1, 0, 0, 1]);
    assert_eq!(identity.try_cycle().expect("an endomorphism").len(), 1);

    let not_endo = rel(&z1, &z2, vec![1, 1]);
    assert!(not_endo.try_cycle().is_none());
}

#[test]
fn identities_on_cycles() {
    let (_, z2, _) = z1_z2_category();
    let top_z2 = rel(&z2, &z2, vec![1, 1, 1, 1]);
    let cycle = top_z2.try_cycle().unwrap();
    assert!(is_identity(&rel(&z2, &z2, vec![1, 0, 0, 1]), &cycle));
    assert!(is_identity(&top_z2, &cycle));
    let zero = rel(&z2, &z2, vec![1, 0, 0, 0]);
    let zero_cycle = zero.try_cycle().unwrap();
    assert_eq!(zero_cycle.len(), 2);
    // composing with the swap of nothing: the empty relation never gives a
    // member of the cycle
    let empty = rel(&z2, &z2, vec![0, 0, 0, 0]);
    assert!(!is_identity(&empty, &zero_cycle));
}

#[test]
fn szymczak_isomorphism_different_base_objects() {
    let (z1, z2, category) = z1_z2_category();
    let top_z1 = rel(&z1, &z1, vec![1]);
    let top_z2 = rel(&z2, &z2, vec![1, 1, 1, 1]);
    assert_eq!(top_z1.matrix.buffer(), vec![true]);
    assert_eq!(top_z2.matrix.buffer(), vec![true, true, true, true]);
    let c1 = top_z1.try_cycle().unwrap();
    let c2 = top_z2.try_cycle().unwrap();
    assert!(are_szymczak_isomorphic((&top_z1, &c1), (&top_z2, &c2), &category));
    assert!(are_szymczak_isomorphic((&top_z2, &c2), (&top_z1, &c1), &category));

    let zero_z2 = rel(&z2, &z2, vec![1, 0, 0, 0]);
    let c0 = zero_z2.try_cycle().unwrap();
    assert!(are_szymczak_isomorphic((&top_z1, &c1), (&zero_z2, &c0), &category));

    let id_z2 = rel(&z2, &z2, vec![1, 0, 0, 1]);
    let cid = id_z2.try_cycle().unwrap();
    assert!(!are_szymczak_isomorphic((&top_z1, &c1), (&id_z2, &cid), &category));
    assert!(are_szymczak_isomorphic((&id_z2, &cid), (&id_z2, &cid), &category));
}

#[test]
fn looking_up_hom_sets() {
    let (z1, z2, category) = z1_z2_category();
    assert_eq!(category.hom_set(&z1, &z2).len(), 2);
    assert_eq!(category.hom_set(&z2, &z2).len(), 5);
    assert_eq!(category.hom_set(&z1, &z1).len(), 1);
    assert_eq!(category.objects().len(), 2);
}

fn endomorphisms_of_z1_z2(z1: &Arc<CanonModule<R>>, z2: &Arc<CanonModule<R>>) -> Vec<Relation<R>> {
    vec![
        rel(z1, z1, vec![1]),
        rel(z2, z2, vec![1, 0, 0, 0]),
        rel(z2, z2, vec![1, 1, 0, 0]),
        rel(z2, z2, vec![1, 0, 1, 0]),
        rel(z2, z2, vec![1, 0, 0, 1]),
        rel(z2, z2, vec![1, 1, 1, 1]),
    ]
}

fn buffers(class: &Vec<(Relation<R>, Vec<Relation<R>>)>) -> Vec<Vec<bool>> {
    class.iter().map(|(e, _)| e.matrix.buffer()).collect()
}

#[test]
fn raw_szymczak_classes_for_z2() {
    let (z1, z2, category) = z1_z2_category();
    let classes = raw_szymczak_functor_final_step(endomorphisms_of_z1_z2(&z1, &z2), &category);
    assert_eq!(classes.len(), 2);
    assert_eq!(
        buffers(&classes[0]),
        vec![
            vec![true],
            vec![true, false, false, false],
            vec![true, true, false, false],
            vec![true, false, true, false],
            vec![true, true, true, true],
        ]
    );
    assert_eq!(buffers(&classes[1]), vec![vec![true, false, false, true]]);
    for class in &classes {
        for (endomorphism, cycle) in class {
            assert_eq!(Some(cycle.clone()), endomorphism.try_cycle());
        }
    }
    let same = raw_szymczak_functor(endomorphisms_of_z1_z2(&z1, &z2), &category);
    assert_eq!(same, classes);
}

#[test]
fn repeated_endomorphisms_are_sorted_once() {
    let (_, z2, category) = z1_z2_category();
    let twice = vec![rel(&z2, &z2, vec![1, 0, 0, 1]), rel(&z2, &z2, vec![1, 0, 0, 1])];
    let classes = raw_szymczak_functor_final_step(twice, &category);
    assert_eq!(classes.len(), 1);
    assert_eq!(classes[0].len(), 1);
}

#[test]
fn merging_raw_classes() {
    let (z1, z2, category) = z1_z2_category();
    let left = raw_szymczak_functor_final_step(
        vec![rel(&z2, &z2, vec![1, 0, 0, 0]), rel(&z2, &z2, vec![1, 0, 0, 1])],
        &category,
    );
    let right = raw_szymczak_functor_final_step(vec![rel(&z1, &z1, vec![1])], &category);
    assert_eq!(left.len(), 2);
    assert_eq!(right.len(), 1);
    let merged = merge_raw_szymczak_classes(left, right, &category);
    assert_eq!(merged.len(), 2);
    assert_eq!(buffers(&merged[0]), vec![vec![true, false, false, false], vec![true]]);
    assert_eq!(buffers(&merged[1]), vec![vec![true, false, false, true]]);
}

#[test]
fn szymczak_classes_for_z2() {
    let (z1, z2, category) = z1_z2_category();
    let szymczak_category = SzymczakCategory::szymczak_functor(&category);
    assert_eq!(szymczak_category.szymczak_classes.len(), 2);
    let first = &szymczak_category.szymczak_classes[0];
    assert_eq!(first.len(), 2);
    assert!(*first[0].0 == *z1);
    assert_eq!(first[0].1.len(), 1);
    assert!(*first[1].0 == *z2);
    assert_eq!(first[1].1.len(), 4);
    let second = &szymczak_category.szymczak_classes[1];
    assert_eq!(second.len(), 1);
    assert!(*second[0].0 == *z2);
    assert_eq!(second[0].1, vec![rel(&z2, &z2, vec![1, 0, 0, 1])]);
}

#[test]
fn grouping_by_module_and_dropping_cycles() {
    let (z1, z2, _) = z1_z2_category();
    let top_z1 = rel(&z1, &z1, vec![1]);
    let top_z2 = rel(&z2, &z2, vec![1, 1, 1, 1]);
    let class = vec![
        (top_z2.clone(), top_z2.try_cycle().unwrap()),
        (top_z1.clone(), top_z1.try_cycle().unwrap()),
        (top_z2.clone(), top_z2.try_cycle().unwrap()),
    ];
    let endomorphisms = drop_cycles(class);
    assert_eq!(endomorphisms, vec![top_z2.clone(), top_z1.clone(), top_z2.clone()]);
    let grouped = sort_by_object(endomorphisms);
    assert_eq!(grouped.len(), 2);
    assert!(*grouped[0].0 == *z2);
    assert_eq!(grouped[0].1, vec![top_z2.clone(), top_z2]);
    assert!(*grouped[1].0 == *z1);
    assert_eq!(grouped[1].1, vec![top_z1]);
}

#[test]
fn szymczak_isomorphism_is_equivalence() {
    let (z1, z2, category) = z1_z2_category();
    let endos = endomorphisms_of_z1_z2(&z1, &z2);
    let cycles: Vec<Vec<Relation<R>>> = endos.iter().map(|e| e.try_cycle().unwrap()).collect();
    let iso = |i: usize, j: usize| are_szymczak_isomorphic((&endos[i], &cycles[i]), (&endos[j], &cycles[j]), &category);
    // reflexive
    for i in 0..endos.len() {
        assert!(iso(i, i));
    }
    // symmetric
    for i in 0..endos.len() {
        for j in 0..endos.len() {
            if iso(i, j) {
                assert!(iso(j, i));
            }
        }
    }
    // transitive
    for i in 0..endos.len() {
        for j in 0..endos.len() {
            for k in 0..endos.len() {
                if iso(i, j) && iso(j, k) {
                    assert!(iso(i, k));
                }
            }
        }
    }
}

#[test]
fn szymczak_isomorphism_isnt_identically_true_nor_false() {
    let (z1, z2, category) = z1_z2_category();
    let endos = endomorphisms_of_z1_z2(&z1, &z2);
    let cycles: Vec<Vec<Relation<R>>> = endos.iter().map(|e| e.try_cycle().unwrap()).collect();
    let mut sometimes_true = false;
    let mut sometimes_false = false;
    for i in 0..endos.len() {
        for j in 0..endos.len() {
            if are_szymczak_isomorphic((&endos[i], &cycles[i]), (&endos[j], &cycles[j]), &category) {
                sometimes_true = true;
            } else {
                sometimes_false = true;
            }
        }
    }
    assert!(sometimes_true);
    assert!(sometimes_false);
}

#[test]
fn composing_when_the_ends_meet() {
    let (z1, z2, _) = z1_z2_category();
    let a = rel(&z1, &z2, vec![1, 1]);
    let b = rel(&z2, &z1, vec![1, 0]);
    assert!(!a.is_endo());
    assert!(rel(&z2, &z2, vec![1, 0, 0, 1]).is_endo());
    let ab = a.try_compose(&b).expect("the ends meet");
    assert_eq!(ab.matrix.buffer(), vec![true]);
    let ba = b.try_compose(&a).expect("the ends meet");
    assert_eq!(ba.matrix.buffer(), vec![true, false, true, false]);
    assert!(a.try_compose(&a).is_none());
}

#[test]
fn classes_are_isomorphism_classes() {
    let (z1, z2, category) = z1_z2_category();
    let classes = raw_szymczak_functor_final_step(endomorphisms_of_z1_z2(&z1, &z2), &category);
    let members: Vec<(usize, &(Relation<R>, Vec<Relation<R>>))> = classes
        .iter()
        .enumerate()
        .flat_map(|(c, class)| class.iter().map(move |member| (c, member)))
        .collect();
    for (c, (x, xc)) in &members {
        for (d, (y, yc)) in &members {
            assert_eq!(c == d, are_szymczak_isomorphic((x, xc), (y, yc), &category));
        }
    }
}

/// The module of `Fin<P>` with `size` elements (the trivial one or Z/P).
fn zp_module_of_size<const P: u16>(size: usize) -> Arc<CanonModule<Fin<P>>> {
    let found = CoeffTree::<Fin<P>, ()>::all_torsion_coeffs(1)
        .into_iter()
        .map(|torsion_coeffs| CanonModule::new(torsion_coeffs))
        .find(|module| module.cardinality() == size);
    Arc::new(found.unwrap_or_else(|| CanonModule::new(CoeffTree::default())))
}

/// Every subgroup of Z/a x Z/b, each as the set of its pairs, with a pair
/// (x, y) at position x + a * y: the spans of single pairs (the zero
/// subgroup among them) and of pairs of pairs.
fn subgroups(a: usize, b: usize) -> Vec<Vec<bool>> {
    let span = |gens: &[(usize, usize)]| -> Vec<bool> {
        let mut set = vec![false; a * b];
        set[0] = true;
        loop {
            let mut grown = false;
            for x in 0..a {
                for y in 0..b {
                    if set[x + a * y] {
                        for (gx, gy) in gens {
                            let (nx, ny) = ((x + gx) % a, (y + gy) % b);
                            if !set[nx + a * ny] {
                                set[nx + a * ny] = true;
                                grown = true;
                            }
                        }
                    }
                }
            }
            if !grown {
                return set;
            }
        }
    };
    let pairs: Vec<(usize, usize)> = (0..a).flat_map(|x| (0..b).map(move |y| (x, y))).collect();
    let mut found: Vec<Vec<bool>> = Vec::new();
    for g in &pairs {
        for h in &pairs {
            let set = span(&[*g, *h]);
            if !found.contains(&set) {
                found.push(set);
            }
        }
    }
    found
}

/// The category of relations over `Fin<P>` between the modules with at most
/// one coefficient, the trivial module and Z/P: every subgroup of each
/// product, as a relation.
fn zp_category<const P: u16>() -> (Arc<CanonModule<Fin<P>>>, Arc<CanonModule<Fin<P>>>, Container<P>) {
    let p = P as usize;
    let z1 = zp_module_of_size::<P>(1);
    let zp = zp_module_of_size::<P>(p);
    assert_eq!(z1.cardinality(), 1);
    assert_eq!(zp.cardinality(), p);
    let objects = vec![Arc::clone(&z1), Arc::clone(&zp)];
    let hom_sets: Vec<Vec<Vec<Relation<Fin<P>>>>> = objects
        .iter()
        .map(|source| {
            objects
                .iter()
                .map(|target| {
                    let (a, b) = (source.cardinality(), target.cardinality());
                    subgroups(a, b)
                        .into_iter()
                        .map(|buffer| Relation {
                            source: Arc::clone(source),
                            target: Arc::clone(target),
                            matrix: Matrix::from_buffer(buffer, a as u8, b as u8),
                        })
                        .collect()
                })
                .collect()
        })
        .collect();
    (z1, zp, Container { objects, hom_sets })
}

fn endomorphisms_of<const P: u16>(category: &Container<P>) -> Vec<Relation<Fin<P>>> {
    let objects = category.objects.clone();
    objects.iter().flat_map(|object| category.hom_set(object, object).clone()).collect()
}

#[test]
fn szymczak_category_szymczak_classes_for_zp() {
    const P: u16 = 7;
    let (_, _, category) = zp_category::<P>();
    let szymczak_category = SzymczakCategory::szymczak_functor(&category);
    assert_eq!(szymczak_category.szymczak_classes.len(), P as usize);
}

#[test]
fn szymczak_category_is_identity() {
    const P: u16 = 2;
    let p = P as usize;
    let (_, _, category) = zp_category::<P>();
    let all_objects = category.objects.clone();
    assert_eq!(all_objects.len(), 2);
    let z1 = all_objects.iter().find(|object| object.cardinality() == 1).expect("there is z1 module").clone();
    let z2 = all_objects.iter().find(|object| object.cardinality() == p).expect("there is z2 module").clone();
    assert_eq!(z2.cardinality(), 2);
    assert_eq!(z1.cardinality(), 1);

    let mut z1_to_z1 = category.hom_set(&z1, &z1).clone();
    let z2_to_z2 = category.hom_set(&z2, &z2).clone();
    let top_z1 = z1_to_z1.pop().expect("there is only top relation on z1");
    let top_z2 = z2_to_z2
        .iter()
        .find(|endo| endo.matrix.buffer() == vec![true, true, true, true])
        .expect("there is the top relation on z2");
    let top_z1_cycle = top_z1.try_cycle().unwrap();
    let top_z2_cycle = top_z2.try_cycle().unwrap();

    let morphisms_top_z1_to_top_z2 = category.hom_set(&top_z1.target, &top_z2.source).clone();
    let morphisms_top_z2_to_top_z1 = category.hom_set(&top_z2.target, &top_z1.source).clone();
    let mut are_szymczak_isomorphic = false;
    let mut are_there_morphisms = false;
    for top_z1_to_top_z2 in morphisms_top_z1_to_top_z2.iter() {
        for top_z2_to_top_z1 in morphisms_top_z2_to_top_z1.iter() {
            if top_z1.try_compose(top_z1_to_top_z2) == top_z1_to_top_z2.try_compose(top_z2)
                && top_z2.try_compose(top_z2_to_top_z1) == top_z2_to_top_z1.try_compose(&top_z1)
            {
                are_there_morphisms = true;
                if is_identity(&top_z1_to_top_z2.try_compose(top_z2_to_top_z1).unwrap(), &top_z1_cycle)
                    && is_identity(&top_z2_to_top_z1.try_compose(top_z1_to_top_z2).unwrap(), &top_z2_cycle)
                {
                    are_szymczak_isomorphic = true;
                }
            }
        }
    }
    assert!(are_there_morphisms);
    assert!(are_szymczak_isomorphic);
}

#[test]
fn szymczak_category_cycles_generation_for_zp() {
    const P: u16 = 11;
    let p = P as usize;
    let (_, _, category) = zp_category::<P>();
    let endomorphisms = endomorphisms_of(&category);
    let endomorphisms_len = endomorphisms.len();
    let endomorphisms_with_cycles: Vec<(Relation<Fin<P>>, Vec<Relation<Fin<P>>>)> = endomorphisms
        .into_iter()
        .map(|endomorphism| {
            let cycle = endomorphism.try_cycle().unwrap();
            (endomorphism, cycle)
        })
        .collect();
    assert_eq!(p + 4, endomorphisms_len);
    assert_eq!(endomorphisms_with_cycles.len(), endomorphisms_len);
}

#[test]
fn szymczak_category_raw_szymczak_functor_for_zp() {
    const P: u16 = 11;
    let p = P as usize;
    let (_, _, category) = zp_category::<P>();
    let endomorphisms = endomorphisms_of(&category);
    let endomorphisms_len = endomorphisms.len();
    let endomorphisms_with_cycles: Vec<(Relation<Fin<P>>, Vec<Relation<Fin<P>>>)> = endomorphisms
        .into_iter()
        .map(|endomorphism| {
            let cycle = endomorphism.try_cycle().unwrap();
            (endomorphism, cycle)
        })
        .collect();
    let endomorphisms_with_cycles_len = endomorphisms_with_cycles.len();
    let mut count_out = 0;
    let mut raw_szymczak_classes: Vec<Vec<(Relation<Fin<P>>, Vec<Relation<Fin<P>>>)>> = Vec::new();
    for (endomorphism, cycle) in endomorphisms_with_cycles {
        count_out += 1;
        let found = raw_szymczak_classes.iter_mut().find(|class| {
            let (first, first_cycle) = class.first().expect("szymczak classes are never empty");
            are_szymczak_isomorphic((&endomorphism, &cycle), (first, first_cycle), &category)
        });
        match found {
            Some(class) => class.push((endomorphism, cycle)),
            None => raw_szymczak_classes.push(vec![(endomorphism, cycle)]),
        }
    }
    assert_eq!(endomorphisms_with_cycles_len, endomorphisms_len);
    assert_eq!(endomorphisms_with_cycles_len, count_out);
    assert_eq!(raw_szymczak_classes.len(), p);
    // the library's own sorting agrees
    let classes = raw_szymczak_functor(endomorphisms_of(&category), &category);
    assert_eq!(classes.len(), p);
}

#[test]
fn merging_keeps_every_entry_once() {
    let (z1, z2, category) = z1_z2_category();
    let left = raw_szymczak_functor_final_step(
        vec![rel(&z2, &z2, vec![1, 0, 0, 0]), rel(&z2, &z2, vec![1, 0, 0, 1]), rel(&z2, &z2, vec![1, 1, 1, 1])],
        &category,
    );
    let right = raw_szymczak_functor_final_step(vec![rel(&z1, &z1, vec![1]), rel(&z2, &z2, vec![1, 0, 1, 0])], &category);
    let mut before: Vec<Vec<bool>> =
        left.iter().chain(right.iter()).flat_map(|class| class.iter().map(|(e, _)| e.matrix.buffer())).collect();
    let merged = merge_raw_szymczak_classes(left, right, &category);
    let mut after: Vec<Vec<bool>> =
        merged.iter().flat_map(|class| class.iter().map(|(e, _)| e.matrix.buffer())).collect();
    before.sort();
    after.sort();
    assert_eq!(before, after);
}
