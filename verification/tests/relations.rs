use std::sync::Arc;
use szymczak::rmodule::canon::CanonModule;
use szymczak::rmodule::direct::DirectModule;
use szymczak::rmodule::ring::Fin;
use szymczak::rmodule::torsion::CoeffTree;
use szymczak::util::category_of_relations::HelperData;

fn module_of_size<const N: u16>(dimension: u16, size: usize, what: &str) -> CanonModule<Fin<N>> {
    CoeffTree::<Fin<N>, ()>::all_torsion_coeffs(dimension)
        .into_iter()
        .map(|torsion_coeffs| CanonModule::new(torsion_coeffs))
        .filter(|module| module.cardinality() == size)
        .next()
        .expect(what)
}

#[test]
fn edge_len() {
    let n: u16 = 7;
    let zn_canon = module_of_size::<7>(1, n.into(), "there is a zn_module here");
    assert_eq!(HelperData::edge_len(&zn_canon), n);

    let znxzn_canon = module_of_size::<7>(2, (n * n).into(), "there is a zn_module here");
    assert_eq!(HelperData::edge_len(&znxzn_canon), n * n);
}

#[test]
fn indices() {
    let n: u16 = 5;
    let zn_canon = module_of_size::<5>(1, n.into(), "there is a zn_module here");
    assert_eq!(HelperData::indices(&zn_canon, &zn_canon), vec![1, 5]);

    let znxzn_canon = module_of_size::<5>(2, (n * n).into(), "there is a zn_module here");
    assert_eq!(
        HelperData::indices(&znxzn_canon, &znxzn_canon),
        vec![1, 5, 25, 125]
    );
}

#[test]
fn indices_different_modules() {
    let n: u16 = 5;
    let m: u16 = 3;
    let zn_canon = module_of_size::<15>(1, n.into(), "there is a zn_module here");
    let zm_canon = module_of_size::<15>(1, m.into(), "there is a zm_module here");

    assert_eq!(HelperData::indices(&zn_canon, &zm_canon), vec![1, 5]);
    assert_eq!(HelperData::indices(&zm_canon, &zn_canon), vec![1, 3]);

    let znxzn_canon = module_of_size::<15>(2, (n * n).into(), "there is a znxzn_module here");
    let zmxzm_canon = module_of_size::<15>(2, (m * m).into(), "there is a zmxzm_module here");

    assert_eq!(
        HelperData::indices(&znxzn_canon, &zmxzm_canon),
        vec![1, 5, 25, 75]
    );
    assert_eq!(
        HelperData::indices(&zmxzm_canon, &znxzn_canon),
        vec![1, 3, 9, 45]
    );
}

#[test]
fn torsion_coeffs_vec() {
    let n: u16 = 5;
    let m: u16 = 3;
    let zn_canon = module_of_size::<15>(1, n.into(), "there is a zn_module here");
    let zm_canon = module_of_size::<15>(1, m.into(), "there is a zm_module here");

    assert_eq!(HelperData::torsion_coeffs_vec(&zn_canon, &zm_canon), vec![5, 3]);
    assert_eq!(HelperData::torsion_coeffs_vec(&zm_canon, &zn_canon), vec![3, 5]);

    let znxzn_canon = module_of_size::<15>(2, (n * n).into(), "there is a znxzn_module here");
    let zmxzm_canon = module_of_size::<15>(2, (m * m).into(), "there is a zmxzm_module here");

    assert_eq!(
        HelperData::torsion_coeffs_vec(&znxzn_canon, &zmxzm_canon),
        vec![5, 5, 3, 3]
    );
    assert_eq!(
        HelperData::torsion_coeffs_vec(&zmxzm_canon, &znxzn_canon),
        vec![3, 3, 5, 5]
    );
}

#[test]
fn helper_data_of_a_direct_sum() {
    let zn_canon = module_of_size::<15>(1, 5, "there is a zn_module here");
    let zmxzm_canon = module_of_size::<15>(2, 9, "there is a zmxzm_module here");
    let direct = DirectModule::sumproduct(&Arc::new(zn_canon), &Arc::new(zmxzm_canon));
    let helper = HelperData::new(&direct);
    assert_eq!(helper.rows, 9);
    assert_eq!(helper.cols, 5);
    assert_eq!(helper.capacity, 45);
    assert_eq!(helper.indices, vec![1, 5, 15]);
    assert_eq!(helper.torsion_coeffs_vec, vec![5, 3, 3]);
}

#[test]
fn canonical_modules_compare_by_coefficients() {
    let a = module_of_size::<15>(2, 9, "there is a zmxzm_module here");
    let b = module_of_size::<15>(2, 9, "there is a zmxzm_module here");
    let c = module_of_size::<15>(2, 25, "there is a znxzn_module here");
    assert!(a == b);
    assert!(a != c);
    assert_eq!(a.torsion_coeffs().iter().map(|x| x.get()).collect::<Vec<u16>>(), vec![3, 3]);
    assert_eq!(c.cardinality(), 25);
    assert_eq!(a.coeff_tree().len(), 2);
    assert_eq!(a.into_coeff_tree().len(), 2);
}
