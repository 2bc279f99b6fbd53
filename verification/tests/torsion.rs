use szymczak::rmodule::torsion::CoeffTree;

#[test]
fn torsion_addition() {
    let ct = CoeffTree::<i8, ()>::from_iter(vec![5, 3]);
    let mut left: CoeffTree<i8, i8> = ct.map_ref(|_, _| 0);
    for (key, value) in ct.keys().iter().zip([3, 2]) {
        left.replace(key, value);
    }

    let mut right: CoeffTree<i8, i8> = ct.map_ref(|_, _| 0);
    for (key, value) in ct.keys().iter().zip([4, 1]) {
        right.replace(key, value);
    }

    let sum = left.combine(right, |l, r, c| (l + r) % c);
    let mut result: CoeffTree<i8, i8> = ct.map_ref(|_, _| 0);
    for (key, value) in ct.keys().iter().zip([2, 0]) {
        result.replace(key, value);
    }

    assert_eq!(sum, result);
}

#[test]
fn torsion_multiplication() {
    let ct = CoeffTree::<i8, ()>::from_iter(vec![5, 3]);
    let mut left: CoeffTree<i8, i8> = ct.map_ref(|_, _| 0);
    for (key, value) in ct.keys().iter().zip([3, 1]) {
        left.replace(key, value);
    }

    let product = left.map(|l, c| (l * 2) % c);
    let mut result: CoeffTree<i8, i8> = ct.map_ref(|_, _| 0);
    for (key, value) in ct.keys().iter().zip([1, 2]) {
        result.replace(key, value);
    }

    assert_eq!(product, result);
}

fn coeffs_of(ct: &CoeffTree<i8, ()>) -> Vec<i8> {
    ct.keys().iter().map(|k| k.coeff()).collect()
}

#[test]
fn building() {
    let mut ct = CoeffTree::<i8, ()>::default();
    ct.insert(6);
    ct.insert(6);
    ct.insert(2);
    ct.insert(2);

    let mut keys = ct.keys().iter();
    assert_eq!(keys.next().unwrap().coeff(), 3);
    assert_eq!(keys.next().unwrap().coeff(), 3);
    assert_eq!(keys.next().unwrap().coeff(), 2);
    assert_eq!(keys.next().unwrap().coeff(), 2);
    assert_eq!(keys.next().unwrap().coeff(), 2);
    assert_eq!(keys.next().unwrap().coeff(), 2);
    assert!(keys.next().is_none());
}

#[test]
fn torsion_building_from_iterator() {
    let ct = CoeffTree::<i8, ()>::from_iter(vec![6, 4]);
    assert_eq!(coeffs_of(&ct), vec![4, 3, 2]);
}

#[test]
fn torsion_splitting() {
    let mut ct = CoeffTree::<i8, ()>::default();
    ct.insert(32);
    ct.insert(16);
    ct.insert(8);
    ct.insert(4);
    ct.insert(2);

    let (l, r) = ct.split();
    assert_eq!(coeffs_of(&l), vec![32, 8, 2]);
    assert_eq!(coeffs_of(&r), vec![16, 4]);
}

#[test]
fn torsion_joining() {
    let mut l = CoeffTree::<i8, ()>::default();
    l.insert(4);
    l.insert(2);

    let mut r = CoeffTree::<i8, ()>::default();
    r.insert(6);
    r.insert(3);

    l.join(r);
    assert_eq!(coeffs_of(&l), vec![4, 3, 3, 2, 2]);
}
