use szymczak::error::Error;
use szymczak::zmodule::canon::{all_torsion_coeffs, canonise_torsion_coeff, CanonZModule};

#[test]
fn canonising_torsion_coefficients() {
    assert_eq!(canonise_torsion_coeff(vec![2, 2]), vec![2, 2]);
    assert_eq!(canonise_torsion_coeff(vec![2, 3, 3]), vec![3, 6]);
    assert_eq!(canonise_torsion_coeff(vec![2, 4, 3, 2]), vec![2, 4, 6]);
}

#[test]
fn canon_addition() {
    let z3sq = CanonZModule::new(vec![3, 3]);
    assert_eq!(z3sq.add(&vec![1, 1], &vec![2, 1]), Ok(vec![0, 2]));
    assert_eq!(z3sq.add(&vec![4, 1], &vec![2, 1]), Ok(vec![0, 2]));
    assert_eq!(z3sq.add(&vec![4, 1, 2], &vec![2, 1]), Err(Error::InvalidElement));

    let mut x = vec![1, 2];
    let r = z3sq.increment(&mut x, &vec![1, 1]);
    assert!(r.is_ok());
    assert_eq!(x, vec![2, 0]);

    let r = z3sq.increment(&mut x, &vec![1]);
    assert!(r.is_err());
    assert_eq!(x, vec![2, 0]);
}

#[test]
fn canon_multiplication() {
    let z3sq = CanonZModule::new(vec![3, 3]);
    assert_eq!(z3sq.mul_by_scalar(2, &vec![2, 1]), Ok(vec![1, 2]));
    assert_eq!(z3sq.mul_by_scalar(5, &vec![2, 4]), Ok(vec![1, 2]));
    assert_eq!(z3sq.mul_by_scalar(2, &vec![2, 1, 3]), Err(Error::InvalidElement));
}

#[test]
fn groups_and_their_elements() {
    let z2z3 = CanonZModule::new_unchecked(vec![2, 3]);
    assert_eq!(z2z3.dimension(), 2);
    assert_eq!(z2z3.torsion_coeff(), vec![2, 3]);
    assert_eq!(z2z3.cardinality(), 6);
    assert_eq!(z2z3.zero(), vec![0, 0]);
    assert!(z2z3.is_element(&vec![1, 2]));
    assert!(!z2z3.is_element(&vec![1]));
    assert_eq!(z2z3.generators(), vec![vec![1, 0], vec![0, 1]]);
    assert_eq!(
        z2z3.all_elements(),
        vec![vec![0, 0], vec![0, 1], vec![0, 2], vec![1, 0], vec![1, 1], vec![1, 2]]
    );
    let big = CanonZModule::product(z2z3.clone(), CanonZModule::new_unchecked(vec![4]));
    assert_eq!(big.torsion_coeff(), vec![2, 3, 4]);
    assert_eq!(big.mul_by_scalar_unchecked(3, &vec![1, 2, 3]), vec![1, 0, 1]);
    assert_eq!(big.add_unchecked(&vec![1, 2, 3], &vec![1, 2]), vec![0, 1]);
    let mut v = vec![1, 2, 3];
    big.increment_unchecked(&mut v, &vec![1, 1]);
    assert_eq!(v, vec![0, 0, 3]);
}

#[test]
fn canonical_groups_combine_coprime_coefficients() {
    let m = CanonZModule::new(vec![4, 9, 2]);
    assert_eq!(m.torsion_coeff(), vec![4, 18]);
}

#[test]
fn torsion_coefficients_by_dimension() {
    let all = all_torsion_coeffs(6, 2);
    assert_eq!(all.len(), 2);
    assert_eq!(all[&1], vec![vec![1], vec![2], vec![3], vec![6]]);
    assert_eq!(all[&2].len(), 16);
    assert_eq!(all[&2][1], vec![1, 2]);
}

#[test]
fn group_operations_obey_the_module_laws() {
    let g = CanonZModule::new_unchecked(vec![2, 4]);
    let elements = g.all_elements();
    let zero = g.zero();
    for v in &elements {
        assert_eq!(g.add_unchecked(v, &zero), *v);
        assert_eq!(g.mul_by_scalar_unchecked(1, v), *v);
        for u in &elements {
            assert_eq!(g.add_unchecked(v, u), g.add_unchecked(u, v));
            let sum = g.add_unchecked(v, u);
            assert_eq!(
                g.mul_by_scalar_unchecked(3, &sum),
                g.add_unchecked(&g.mul_by_scalar_unchecked(3, v), &g.mul_by_scalar_unchecked(3, u))
            );
            for w in &elements {
                assert_eq!(
                    g.add_unchecked(&g.add_unchecked(v, u), w),
                    g.add_unchecked(v, &g.add_unchecked(u, w))
                );
            }
        }
    }
}
