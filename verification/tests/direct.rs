use std::sync::Arc;
use szymczak::matrix::Matrix;
use szymczak::rmodule::canon::CanonModule;
use szymczak::rmodule::direct::DirectModule;
use szymczak::rmodule::map::CanonToCanon;
use szymczak::rmodule::ring::Fin;
use szymczak::rmodule::torsion::CoeffTree;

fn module<const N: u16>(coeffs: &[u16]) -> Arc<CanonModule<Fin<N>>> {
    Arc::new(CanonModule::new(CoeffTree::<Fin<N>, ()>::from_iter(
        coeffs.iter().map(|&c| Fin::new(c)).collect(),
    )))
}

fn matrix<const N: u16>(entries: &[u16], cols: u8, rows: u8) -> Matrix<Fin<N>> {
    Matrix::from_buffer(entries.iter().map(|&x| Fin::new(x)).collect(), cols, rows)
}

fn coeffs<const N: u16>(m: &CanonModule<Fin<N>>) -> Vec<u16> {
    m.torsion_coeffs().iter().map(|c| c.get()).collect()
}

#[test]
#[allow(non_snake_case)]
fn sumproduct_of_Z2_and_Z4() {
    let z2 = module::<4>(&[2]);
    let z4 = module::<4>(&[4]);
    let z4xz2_canon = module::<4>(&[2, 4]);
    let z4xz2_direct = DirectModule::sumproduct(&z2, &z4);

    assert!(z4xz2_direct.module() == z4xz2_canon);
    assert!(
        z4xz2_direct.left_inclusion
            == CanonToCanon::new(Arc::clone(&z2), Arc::clone(&z4xz2_canon), matrix(&[0, 1], 1, 2))
    );
    assert!(
        z4xz2_direct.right_inclusion
            == CanonToCanon::new(Arc::clone(&z4), Arc::clone(&z4xz2_canon), matrix(&[1, 0], 1, 2))
    );
    assert!(
        z4xz2_direct.left_projection
            == CanonToCanon::new(Arc::clone(&z4xz2_canon), Arc::clone(&z2), matrix(&[0, 1], 2, 1))
    );
    assert!(
        z4xz2_direct.right_projection
            == CanonToCanon::new(Arc::clone(&z4xz2_canon), Arc::clone(&z4), matrix(&[1, 0], 2, 1))
    );
}

#[test]
fn sumproduct_and_duplicate() {
    let zn_module = Arc::new(
        CoeffTree::<Fin<3>, ()>::all_torsion_coeffs(1)
            .into_iter()
            .map(|torsion_coeffs| CanonModule::new(torsion_coeffs))
            .next()
            .unwrap(),
    );
    let again = Arc::new(
        CoeffTree::<Fin<3>, ()>::all_torsion_coeffs(1)
            .into_iter()
            .map(|torsion_coeffs| CanonModule::new(torsion_coeffs))
            .next()
            .unwrap(),
    );
    let zn_zn = DirectModule::sumproduct(&zn_module, &again).module();
    assert_eq!(coeffs(&zn_zn), vec![3, 3]);
    assert!(DirectModule::sumproduct(&zn_module, &again).left() == zn_module);
    assert!(DirectModule::sumproduct(&zn_module, &again).right() == again);
}

#[test]
fn splitting_a_module_into_a_direct_sum() {
    let m = module::<12>(&[4, 3, 3, 2]);
    let direct = DirectModule::from((*m).clone());
    assert!(direct.module() == m);
    assert_eq!(coeffs(&direct.left()), vec![4, 3]);
    assert_eq!(coeffs(&direct.right()), vec![3, 2]);
    let rows: Vec<Vec<u16>> = direct
        .left_inclusion
        .rows()
        .into_iter()
        .map(|row| row.into_iter().map(|x| x.get()).collect())
        .collect();
    assert_eq!(rows, vec![vec![1, 12], vec![12, 12], vec![12, 1], vec![12, 12]]);
}

#[test]
fn universal_morphism_in_easy() {
    let z2 = module::<12>(&[2]);
    let z3 = module::<12>(&[3]);
    let z4 = module::<12>(&[4]);
    let z4xz3_canon = module::<12>(&[4, 3]);
    let z4xz3_direct = DirectModule::sumproduct(&z4, &z3);
    assert_eq!(
        z4xz3_direct.universal_in(
            &CanonToCanon::new(Arc::clone(&z2), Arc::clone(&z4), matrix(&[2], 1, 2)),
            &CanonToCanon::new(Arc::clone(&z2), Arc::clone(&z3), matrix(&[0], 1, 1)),
        ),
        CanonToCanon::new(Arc::clone(&z2), Arc::clone(&z4xz3_canon), matrix(&[2, 0], 1, 2))
    );
}

#[test]
fn universal_morphism_in_medium() {
    let z4xz3 = module::<12>(&[4, 3]);
    let z3xz2 = module::<12>(&[3, 2]);
    let z4xz3sqxz2_canon = module::<12>(&[4, 3, 3, 2]);
    let z4xz3sqxz2_direct = DirectModule::sumproduct(&z3xz2, &z4xz3);
    let univ_in = z4xz3sqxz2_direct.universal_in(
        &CanonToCanon::new(Arc::clone(&z4xz3), Arc::clone(&z3xz2), matrix(&[0, 2, 1, 0], 2, 2)),
        &CanonToCanon::new(Arc::clone(&z4xz3), Arc::clone(&z4xz3), matrix(&[2, 0, 0, 1], 2, 2)),
    );
    let true_output_a = CanonToCanon::new(
        Arc::clone(&z4xz3),
        Arc::clone(&z4xz3sqxz2_canon),
        matrix(&[2, 0, 0, 1, 0, 2, 1, 0], 2, 4),
    );
    let true_output_b = CanonToCanon::new(
        Arc::clone(&z4xz3),
        Arc::clone(&z4xz3sqxz2_canon),
        matrix(&[2, 0, 0, 2, 0, 1, 1, 0], 2, 4),
    );
    // the two keys of coefficient 3 may come in either order
    assert!(univ_in == true_output_a || univ_in == true_output_b);
}

#[test]
fn universal_morphism_out_easy() {
    let z2 = module::<12>(&[2]);
    let z3 = module::<12>(&[3]);
    let z4 = module::<12>(&[4]);
    let z4xz3_canon = module::<12>(&[4, 3]);
    let z4xz3_direct = DirectModule::sumproduct(&z4, &z3);
    assert_eq!(
        z4xz3_direct.universal_out(
            &CanonToCanon::new(Arc::clone(&z4), Arc::clone(&z2), matrix(&[1], 1, 2)),
            &CanonToCanon::new(Arc::clone(&z3), Arc::clone(&z2), matrix(&[0], 1, 1)),
        ),
        CanonToCanon::new(Arc::clone(&z4xz3_canon), Arc::clone(&z2), matrix(&[1, 0], 2, 1))
    );
}

#[test]
fn universal_morphism_out_medium() {
    let z4xz3 = module::<12>(&[4, 3]);
    let z3xz2 = module::<12>(&[3, 2]);
    let z4xz3sqxz2_canon = module::<12>(&[4, 3, 3, 2]);
    let z4xz3sqxz2_direct = DirectModule::sumproduct(&z3xz2, &z4xz3);
    let univ_out = z4xz3sqxz2_direct.universal_out(
        &CanonToCanon::new(Arc::clone(&z3xz2), Arc::clone(&z4xz3), matrix(&[0, 2, 2, 0], 2, 2)),
        &CanonToCanon::new(Arc::clone(&z4xz3), Arc::clone(&z4xz3), matrix(&[3, 0, 0, 1], 2, 2)),
    );
    let true_output_a = CanonToCanon::new(
        Arc::clone(&z4xz3sqxz2_canon),
        Arc::clone(&z4xz3),
        matrix(&[3, 0, 0, 2, 0, 2, 1, 0], 4, 2),
    );
    let true_output_b = CanonToCanon::new(
        Arc::clone(&z4xz3sqxz2_canon),
        Arc::clone(&z4xz3),
        matrix(&[3, 0, 0, 2, 0, 1, 2, 0], 4, 2),
    );
    // the two keys of coefficient 3 may come in either order
    assert!(univ_out == true_output_a || univ_out == true_output_b);
}
