use std::rc::Rc;
use szymczak::matrix::Matrix;
use szymczak::rmodule::ring::Fin;
use szymczak::rmodule::torsion::{Coeff, CoeffTree, Factorisable};

fn key(c: i8, tag: &str) -> Coeff<i8> {
    Coeff::new(c, Rc::from(tag))
}

fn coeffs_of<V>(ct: &CoeffTree<i8, V>) -> Vec<i8> {
    ct.coeffs()
}

#[test]
fn lookups() {
    let ct = CoeffTree::<i8, ()>::from_iter(vec![12, 5]);
    assert_eq!(coeffs_of(&ct), vec![5, 4, 3]);
    let mut values: CoeffTree<i8, i8> = ct.map_ref(|_, c| c * 10);
    let k = ct.keys()[1].clone();
    assert_eq!(values.get(&k), Some(&40));
    assert!(values.contains_key(&k));
    assert!(!values.contains_key(&key(4, "elsewhere")));
    assert_eq!(values.get(&key(4, "elsewhere")), None);
    *values.get_mut(&k).unwrap() = 1;
    assert_eq!(values.values(), &[50, 1, 30]);
    assert_eq!(values.replace(&key(4, "elsewhere"), 9), None);
    assert_eq!(values.replace(&k, 7), Some(()));
    assert_eq!(values.clone().into_values(), vec![50, 7, 30]);
    assert!(values.has_same_keys(&ct));
    assert_eq!(values.iter().len(), 3);
    assert_eq!(values.clone().into_keys().len(), 3);
    assert_eq!(values.clone().into_iter()[0].1, 50);
}

#[test]
fn changing_values_in_place() {
    let ct = CoeffTree::<i8, ()>::from_iter(vec![6]);
    let mut values: CoeffTree<i8, i8> = ct.map_ref(|_, c| c);
    for v in values.values_mut().iter_mut() {
        *v += 1;
    }
    assert_eq!(values.values(), &[4, 3]);
    values.map_mut(|v, c| *v = *v * c);
    assert_eq!(values.values(), &[12, 6]);
    let (keys, vals) = values.iter_mut();
    assert_eq!(keys.len(), 2);
    vals[0] = 0;
    assert_eq!(values.values(), &[0, 6]);
}

#[test]
fn combining_by_reference_keeps_common_keys() {
    let ct = CoeffTree::<i8, ()>::from_iter(vec![10]);
    let (left, right) = ct.clone().split();
    let l: CoeffTree<i8, i8> = ct.map_ref(|_, c| c);
    let r: CoeffTree<i8, i8> = left.map_ref(|_, c| c + 1);
    let both = l.combine_ref(&r, |a, b, _| a * b);
    assert_eq!(both.values(), &[30]);
    assert_eq!(coeffs_of(&both), vec![5]);
    let none = r.combine_ref(&right.map_ref(|_, _| 0i8), |a, b, _| a + b);
    assert_eq!(none.len(), 0);
}

#[test]
fn matrices_of_values() {
    let ct = CoeffTree::<i8, ()>::from_iter(vec![30]);
    let values: CoeffTree<i8, i8> = ct.map_ref(|_, c| c - 1);
    let m = values.as_matrix();
    assert_eq!(m, Matrix::from_buffer(vec![4, 2, 1], 1, 3));
    let back = CoeffTree::<i8, i8>::from_matrix(Matrix::from_buffer(vec![7, 8], 2, 1), &ct);
    assert_eq!(coeffs_of(&back), vec![5, 3]);
    assert_eq!(back.values(), &[7, 8]);
}

#[test]
fn splitting_and_joining_give_back_the_keys() {
    let ct = CoeffTree::<i8, ()>::from_iter(vec![30, 4, 9]);
    let (mut l, r) = ct.clone().split();
    l.join(r);
    assert_eq!(l, ct);
}

#[test]
fn decompositions_in_z_mod_n() {
    assert_eq!(Fin::<12>::new(8).prime_power_decomposition(), vec![Fin::<12>::new(8)]);
    assert_eq!(Fin::<36>::new(12).prime_power_decomposition(), vec![Fin::<36>::new(4), Fin::<36>::new(3)]);
    assert_eq!(<Fin<6> as Factorisable>::primes(), vec![Fin::<6>::new(2), Fin::<6>::new(3), Fin::<6>::new(5)]);
    assert_eq!(30i8.prime_power_decomposition(), vec![2, 3, 5]);
    assert_eq!((-8i8).prime_power_decomposition(), vec![8]);
}

#[test]
fn all_torsion_coefficients() {
    let all = CoeffTree::<Fin<4>, ()>::all_torsion_coeffs(2);
    let lists: Vec<Vec<u16>> = all.iter().map(|t| t.coeffs().iter().map(|c| c.get()).collect()).collect();
    assert_eq!(lists, vec![vec![2], vec![4], vec![2, 2], vec![4, 2], vec![4, 2], vec![4, 4]]);
}

#[test]
fn all_torsion_coefficients_by_dimension() {
    let all = CoeffTree::<Fin<4>, ()>::all_torsion_coeffs_hashed(2);
    assert_eq!(all.len(), 2);
    assert_eq!(all[&1].len(), 2);
    assert_eq!(all[&2].len(), 4);
}

#[test]
fn combining_by_reference_is_combining_clones() {
    let ct = CoeffTree::<i8, ()>::from_iter(vec![30]);
    let (left, _) = ct.clone().split();
    let l: CoeffTree<i8, i8> = ct.map_ref(|_, c| c);
    let r: CoeffTree<i8, i8> = left.map_ref(|_, c| c + 1);
    let by_ref = l.combine_ref(&r, |a, b, c| a * b + c);
    let by_value = l.clone().combine(r.clone(), |a, b, c| a * b + c);
    assert_eq!(by_ref, by_value);
    assert_eq!(coeffs_of(&by_ref), coeffs_of(&by_value));
}

#[test]
fn coefficients_are_descending_prime_powers() {
    let ct = CoeffTree::<i8, ()>::from_iter(vec![12, 10, 9]);
    let cs = coeffs_of(&ct);
    for w in cs.windows(2) {
        assert!(w[0] >= w[1]);
    }
    for c in &cs {
        assert_eq!(c.prime_power_decomposition(), vec![*c]);
    }
    let (a, b) = ct.clone().split();
    let mut joined = a.clone();
    joined.join(b);
    assert_eq!(coeffs_of(&joined), cs);
}
