use std::sync::Arc;
use szymczak::matrix::Matrix;
use szymczak::rmodule::canon::CanonModule;
use szymczak::rmodule::map::CanonToCanon;
use szymczak::rmodule::ring::Fin;
use szymczak::rmodule::torsion::CoeffTree;

type R = Fin<36>;

fn module(coeffs: &[u16]) -> Arc<CanonModule<R>> {
    Arc::new(CanonModule::new(CoeffTree::<R, ()>::from_iter(
        coeffs.iter().map(|&c| R::new(c)).collect(),
    )))
}

fn matrix(entries: &[u16], cols: u8, rows: u8) -> Matrix<R> {
    Matrix::from_buffer(entries.iter().map(|&x| R::new(x)).collect(), cols, rows)
}

fn raw_rows(f: &CanonToCanon<R>) -> Vec<Vec<u16>> {
    f.rows().into_iter().map(|row| row.into_iter().map(|x| x.get()).collect()).collect()
}

#[test]
fn new_reduces_each_row_by_its_coefficient() {
    let z94 = module(&[9, 4]);
    let f = CanonToCanon::new(Arc::clone(&z94), Arc::clone(&z94), matrix(&[10, 13, 7, 6], 2, 2));
    assert_eq!(raw_rows(&f), vec![vec![1, 4], vec![3, 2]]);
    assert_eq!(f.cols(), f.rows());
    assert!(*f.source() == *z94);
    assert!(*f.target() == *z94);
    assert!(!f.is_zero());
}

#[test]
fn multiples_of_the_coefficients_vanish() {
    let z94 = module(&[9, 4]);
    let f = CanonToCanon::new(Arc::clone(&z94), Arc::clone(&z94), matrix(&[9, 18, 4, 8], 2, 2));
    assert!(f.is_zero());
    assert_eq!(raw_rows(&f), vec![vec![36, 36], vec![36, 36]]);
}

#[test]
fn composing_with_the_identity() {
    let z94 = module(&[9, 4]);
    let z3 = module(&[3]);
    let identity = CanonToCanon::new(Arc::clone(&z94), Arc::clone(&z94), matrix(&[1, 0, 0, 1], 2, 2));
    let g = CanonToCanon::new(Arc::clone(&z94), Arc::clone(&z3), matrix(&[4, 5], 2, 1));
    let c = identity.compose_unchecked(&g);
    assert_eq!(raw_rows(&c), vec![vec![1, 2]]);
    assert!(*c.source() == *z94);
    assert!(*c.target() == *z3);
}

#[test]
fn adding_and_negating_maps() {
    let z94 = module(&[9, 4]);
    let f = CanonToCanon::new(Arc::clone(&z94), Arc::clone(&z94), matrix(&[10, 13, 7, 6], 2, 2));
    let g = CanonToCanon::new(Arc::clone(&z94), Arc::clone(&z94), matrix(&[10, 13, 7, 6], 2, 2));
    let sum = f.add(g);
    assert_eq!(raw_rows(&sum), vec![vec![2, 8], vec![6, 4]]);
    let negated = sum.neg();
    assert_eq!(raw_rows(&negated), vec![vec![34, 28], vec![30, 32]]);
    let twice = negated.neg();
    assert_eq!(raw_rows(&twice), vec![vec![2, 8], vec![6, 4]]);
}

fn z(coeffs: &[u16]) -> Arc<CanonModule<R>> {
    module(coeffs)
}

#[test]
fn kernel_easy() {
    let z2 = z(&[2]);
    let z6 = z(&[6]);
    assert_eq!(
        CanonToCanon::new(Arc::clone(&z6), Arc::clone(&z6), matrix(&[1, 0, 0, 2], 2, 2)).kernel(),
        CanonToCanon::new(Arc::clone(&z2), Arc::clone(&z6), matrix(&[0, 1], 1, 2))
    );
}

#[test]
fn kernel_medium() {
    let z2 = z(&[2]);
    let z2sq = z(&[2, 2]);
    assert_eq!(
        CanonToCanon::new(Arc::clone(&z2sq), Arc::clone(&z2sq), matrix(&[1, 1, 1, 1], 2, 2)).kernel(),
        CanonToCanon::new(Arc::clone(&z2), Arc::clone(&z2sq), matrix(&[1, 1], 1, 2))
    );
}

#[test]
fn kernel_hard() {
    let z43 = z(&[4, 3]);
    let z942 = z(&[9, 4, 2]);
    let z322 = z(&[3, 2, 2]);
    assert_eq!(
        CanonToCanon::new(Arc::clone(&z942), Arc::clone(&z43), matrix(&[0, 2, 2, 1, 0, 0], 3, 2)).kernel(),
        CanonToCanon::new(
            Arc::clone(&z322),
            Arc::clone(&z942),
            matrix(&[3, 0, 0, 0, 2, 3, 0, 0, 1], 3, 3)
        )
    );
}

#[test]
fn cokernel_easy() {
    let z2 = z(&[2]);
    let z6 = z(&[6]);
    assert_eq!(
        CanonToCanon::new(Arc::clone(&z6), Arc::clone(&z6), matrix(&[1, 0, 0, 2], 2, 2)).cokernel(),
        CanonToCanon::new(Arc::clone(&z6), Arc::clone(&z2), matrix(&[0, 1], 2, 1))
    );
}

#[test]
fn cokernel_medium() {
    let z2 = z(&[2]);
    let z2sq = z(&[2, 2]);
    assert_eq!(
        CanonToCanon::new(Arc::clone(&z2sq), Arc::clone(&z2sq), matrix(&[1, 1, 1, 1], 2, 2)).cokernel(),
        CanonToCanon::new(Arc::clone(&z2sq), Arc::clone(&z2), matrix(&[1, 1], 2, 1))
    );
}

#[test]
fn cokernel_hard() {
    let z2 = z(&[2]);
    let z43 = z(&[4, 3]);
    let z942 = z(&[9, 4, 2]);
    assert_eq!(
        CanonToCanon::new(Arc::clone(&z942), Arc::clone(&z43), matrix(&[0, 2, 2, 1, 0, 0], 3, 2)).cokernel(),
        CanonToCanon::new(Arc::clone(&z43), Arc::clone(&z2), matrix(&[1, 0], 2, 1))
    );
}

#[test]
fn kernel_of_an_injective_map_is_zero() {
    let z4 = z(&[4]);
    let k = CanonToCanon::new(Arc::clone(&z4), Arc::clone(&z4), matrix(&[1], 1, 1)).kernel();
    assert_eq!(k.source().torsion_coeffs().len(), 0);
    assert!(*k.target() == *z4);
}

#[test]
fn generators_of_a_module() {
    let z94 = z(&[9, 4]);
    let generators = z94.generators();
    assert_eq!(generators.len(), 2);
    let values: Vec<Vec<u16>> = generators
        .iter()
        .map(|g| g.values().iter().map(|x| x.get()).collect())
        .collect();
    assert_eq!(values, vec![vec![1, 36], vec![36, 1]]);
    assert!(generators[0].has_same_keys(z94.coeff_tree()));
}

#[test]
fn evaluating_a_map_on_generators() {
    let z94 = z(&[9, 4]);
    let f = CanonToCanon::new(Arc::clone(&z94), Arc::clone(&z94), matrix(&[10, 13, 7, 6], 2, 2));
    let generators = z94.generators();
    let first: Vec<u16> = f.evaluate_unchecked(&generators[0]).values().iter().map(|x| x.get()).collect();
    let second: Vec<u16> = f.evaluate_unchecked(&generators[1]).values().iter().map(|x| x.get()).collect();
    assert_eq!(first, vec![1, 3]);
    assert_eq!(second, vec![4, 2]);
}
