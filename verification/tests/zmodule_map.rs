use std::sync::Arc;
use szymczak::error::Error;
use szymczak::zmodule::canon::CanonZModule;
use szymczak::zmodule::map::CanonToCanon;

fn group(coeffs: Vec<u16>) -> Arc<CanonZModule> {
    Arc::new(CanonZModule::new_unchecked(coeffs))
}

#[test]
fn maps_need_images_in_the_target() {
    let z4 = group(vec![4]);
    let z2z4 = group(vec![2, 4]);
    let ok = CanonToCanon::new(Arc::clone(&z4), Arc::clone(&z2z4), vec![vec![1, 2]]);
    assert!(ok.is_ok());
    let bad = CanonToCanon::new(Arc::clone(&z4), Arc::clone(&z2z4), vec![vec![1]]);
    assert_eq!(bad, Err(Error::InvalidElement));
}

#[test]
fn source_and_target_are_shared() {
    let z4 = group(vec![4]);
    let z2z4 = group(vec![2, 4]);
    let f = CanonToCanon::new_unchecked(Arc::clone(&z4), Arc::clone(&z2z4), vec![vec![1, 2]]);
    assert_eq!(*f.source(), CanonZModule::new_unchecked(vec![4]));
    assert_eq!(*f.target(), CanonZModule::new_unchecked(vec![2, 4]));
}

#[test]
fn evaluating_a_homomorphism() {
    let z4 = group(vec![4]);
    let double = CanonToCanon::new_unchecked(Arc::clone(&z4), Arc::clone(&z4), vec![vec![2]]);
    assert_eq!(double.evaluate_unchecked(&vec![3]), vec![2]);
    assert_eq!(double.evaluate(&vec![1]), Ok(vec![2]));
    assert_eq!(double.evaluate(&vec![1, 0]), Err(Error::InvalidElement));

    let z2z4 = group(vec![2, 4]);
    let identity =
        CanonToCanon::new_unchecked(Arc::clone(&z2z4), Arc::clone(&z2z4), vec![vec![1, 0], vec![0, 1]]);
    assert_eq!(identity.evaluate_unchecked(&vec![1, 3]), vec![1, 3]);
    let swap_ish =
        CanonToCanon::new_unchecked(Arc::clone(&z2z4), Arc::clone(&z2z4), vec![vec![1, 1], vec![1, 3]]);
    // 1·(1, 1) + 2·(1, 3) = (1 + 0, 1 + 2) = (1, 3)
    assert_eq!(swap_ish.evaluate_unchecked(&vec![1, 2]), vec![1, 3]);
}

#[test]
fn image_lists_each_value_once() {
    let z4 = group(vec![4]);
    let double = CanonToCanon::new_unchecked(Arc::clone(&z4), Arc::clone(&z4), vec![vec![2]]);
    assert_eq!(double.image(), vec![vec![0], vec![2]]);
    let identity = CanonToCanon::new_unchecked(Arc::clone(&z4), Arc::clone(&z4), vec![vec![1]]);
    assert_eq!(identity.image(), vec![vec![0], vec![1], vec![2], vec![3]]);
}

#[test]
fn composing_homomorphisms() {
    let z4 = group(vec![4]);
    let double = CanonToCanon::new_unchecked(Arc::clone(&z4), Arc::clone(&z4), vec![vec![2]]);
    let triple = CanonToCanon::new_unchecked(Arc::clone(&z4), Arc::clone(&z4), vec![vec![3]]);
    let both = double.compose_unchecked(&triple);
    assert_eq!(both, CanonToCanon::new_unchecked(Arc::clone(&z4), Arc::clone(&z4), vec![vec![2]]));
    let z2 = group(vec![2]);
    let into = CanonToCanon::new_unchecked(Arc::clone(&z2), Arc::clone(&z4), vec![vec![2]]);
    let composed = into.compose_unchecked(&triple);
    assert_eq!(*composed.source(), CanonZModule::new_unchecked(vec![2]));
    assert_eq!(composed.evaluate_unchecked(&vec![1]), vec![0]);
}
