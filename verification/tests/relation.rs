use std::sync::Arc;
use szymczak::category::relation::Relation;
use szymczak::matrix::Matrix;
use szymczak::rmodule::canon::CanonModule;
use szymczak::rmodule::ring::Fin;
use szymczak::rmodule::torsion::CoeffTree;

fn cyclic<const N: u16>() -> Arc<CanonModule<Fin<N>>> {
    Arc::new(
        CoeffTree::<Fin<N>, ()>::all_torsion_coeffs(1)
            .into_iter()
            .map(|torsion_coeffs| CanonModule::new(torsion_coeffs))
            .find(|module| module.cardinality() == usize::from(N))
            .expect("there is a zn_module here"),
    )
}

fn relation<const N: u16>(module: &Arc<CanonModule<Fin<N>>>, raw: Vec<u8>) -> Relation<Fin<N>> {
    let n = N as u8;
    Relation {
        source: Arc::clone(module),
        target: Arc::clone(module),
        matrix: Matrix::from_buffer(raw.into_iter().map(|entry| entry == 1).collect(), n, n),
    }
}

fn element<const N: u16>(x: u16) -> Vec<Fin<N>> {
    vec![Fin::new(x)]
}

#[test]
fn relations_from_pairs_of_elements() {
    let z3 = cyclic::<3>();
    let diagonal: Vec<(Vec<Fin<3>>, Vec<Fin<3>>)> =
        (0..3).map(|x| (element(x), element(x))).collect();
    let one = Relation::from_pairs(Arc::clone(&z3), Arc::clone(&z3), &diagonal);
    assert_eq!(
        one.matrix,
        Matrix::from_buffer(
            vec![true, false, false, false, true, false, false, false, true],
            3,
            3
        )
    );

    let twice: Vec<(Vec<Fin<3>>, Vec<Fin<3>>)> =
        (0..3).map(|x| (element(x), element(2 * x))).collect();
    let two = Relation::from_pairs(Arc::clone(&z3), Arc::clone(&z3), &twice);
    assert_eq!(
        two.matrix.buffer(),
        vec![true, false, false, false, false, true, false, true, false]
    );

    let nothing: Vec<(Vec<Fin<3>>, Vec<Fin<3>>)> = Vec::new();
    let empty = Relation::from_pairs(Arc::clone(&z3), Arc::clone(&z3), &nothing);
    assert_eq!(empty.matrix.buffer(), vec![false; 9]);
    assert!(*empty.source == *z3);
}

fn module_of_size(size: usize) -> Arc<CanonModule<Fin<15>>> {
    Arc::new(
        CoeffTree::<Fin<15>, ()>::all_torsion_coeffs(1)
            .into_iter()
            .map(|torsion_coeffs| CanonModule::new(torsion_coeffs))
            .find(|module| module.cardinality() == size)
            .expect("there is a cyclic module of this size"),
    )
}

#[test]
fn relations_between_different_modules() {
    let z5 = module_of_size(5);
    let z3 = module_of_size(3);
    // the zero pair, and the pair of the entries 7 and 4, read as 2 and 1
    let pairs = vec![(element::<15>(15), element::<15>(15)), (element(7), element(4))];
    let r = Relation::from_pairs(Arc::clone(&z5), Arc::clone(&z3), &pairs);
    assert_eq!(r.matrix.num_of_cols(), 5);
    assert_eq!(r.matrix.num_of_rows(), 3);
    let mut expected = vec![false; 15];
    expected[0] = true;
    expected[2 + 5 * 1] = true;
    assert_eq!(r.matrix.buffer(), expected);
}

#[test]
fn relation_composition_z5() {
    let z5 = cyclic::<5>();

    let bottom = relation(&z5, vec![1, 0, 0, 0, 0, 0, 0, 0, 0, 0, 0, 0, 0, 0, 0, 0, 0, 0, 0, 0, 0, 0, 0, 0, 0]);
    let zero = relation(&z5, vec![1, 1, 1, 1, 1, 0, 0, 0, 0, 0, 0, 0, 0, 0, 0, 0, 0, 0, 0, 0, 0, 0, 0, 0, 0]);
    let zero_dagger = relation(&z5, vec![1, 0, 0, 0, 0, 1, 0, 0, 0, 0, 1, 0, 0, 0, 0, 1, 0, 0, 0, 0, 1, 0, 0, 0, 0]);
    let one = relation(&z5, vec![1, 0, 0, 0, 0, 0, 1, 0, 0, 0, 0, 0, 1, 0, 0, 0, 0, 0, 1, 0, 0, 0, 0, 0, 1]);
    let two = relation(&z5, vec![1, 0, 0, 0, 0, 0, 0, 1, 0, 0, 0, 0, 0, 0, 1, 0, 1, 0, 0, 0, 0, 0, 0, 1, 0]);
    let three = relation(&z5, vec![1, 0, 0, 0, 0, 0, 0, 0, 1, 0, 0, 1, 0, 0, 0, 0, 0, 0, 0, 1, 0, 0, 1, 0, 0]);
    let four = relation(&z5, vec![1, 0, 0, 0, 0, 0, 0, 0, 0, 1, 0, 0, 0, 1, 0, 0, 0, 1, 0, 0, 0, 1, 0, 0, 0]);
    let top = relation(&z5, vec![1; 25]);

    assert_eq!(bottom.compose_unchecked(&bottom), bottom);
    assert_eq!(bottom.compose_unchecked(&zero_dagger), zero_dagger);
    assert_eq!(bottom.compose_unchecked(&zero), bottom);
    assert_eq!(bottom.compose_unchecked(&one), bottom);
    assert_eq!(bottom.compose_unchecked(&two), bottom);
    assert_eq!(bottom.compose_unchecked(&three), bottom);
    assert_eq!(bottom.compose_unchecked(&four), bottom);
    assert_eq!(bottom.compose_unchecked(&top), zero_dagger);

    assert_eq!(zero_dagger.compose_unchecked(&zero_dagger), zero_dagger);
    assert_eq!(zero_dagger.compose_unchecked(&zero), bottom);
    assert_eq!(zero_dagger.compose_unchecked(&one), zero_dagger);
    assert_eq!(zero_dagger.compose_unchecked(&two), zero_dagger);
    assert_eq!(zero_dagger.compose_unchecked(&three), zero_dagger);
    assert_eq!(zero_dagger.compose_unchecked(&four), zero_dagger);
    assert_eq!(zero_dagger.compose_unchecked(&top), zero_dagger);

    assert_eq!(zero.compose_unchecked(&zero), zero);
    assert_eq!(zero.compose_unchecked(&one), zero);
    assert_eq!(zero.compose_unchecked(&two), zero);
    assert_eq!(zero.compose_unchecked(&three), zero);
    assert_eq!(zero.compose_unchecked(&four), zero);
    assert_eq!(zero.compose_unchecked(&top), top);

    assert_eq!(one.compose_unchecked(&one), one);
    assert_eq!(one.compose_unchecked(&two), two);
    assert_eq!(one.compose_unchecked(&three), three);
    assert_eq!(one.compose_unchecked(&four), four);
    assert_eq!(one.compose_unchecked(&top), top);

    assert_eq!(two.compose_unchecked(&two), four);
    assert_eq!(two.compose_unchecked(&three), one);
    assert_eq!(two.compose_unchecked(&four), three);
    assert_eq!(two.compose_unchecked(&top), top);

    assert_eq!(three.compose_unchecked(&three), four);
    assert_eq!(three.compose_unchecked(&four), two);
    assert_eq!(three.compose_unchecked(&top), top);

    assert_eq!(four.compose_unchecked(&four), one);
    assert_eq!(four.compose_unchecked(&top), top);

    assert_eq!(top.compose_unchecked(&top), top);
}
