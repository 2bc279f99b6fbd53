use szymczak::torsion_coeff::{tau_array, tau_len, torsion_coeff};

#[test]
fn counting_divisors() {
    assert_eq!(tau_len(1), 1);
    assert_eq!(tau_len(12), 6);
    assert_eq!(tau_len(13), 2);
}

#[test]
fn listing_divisors() {
    assert_eq!(tau_array(1), vec![1]);
    assert_eq!(tau_array(12), vec![1, 2, 3, 4, 6, 12]);
    assert_eq!(tau_array(36), vec![1, 2, 3, 4, 6, 9, 12, 18, 36]);
}

#[test]
fn tuples_of_divisors_turn_like_an_odometer() {
    let table = torsion_coeff(6, 2);
    assert_eq!(table.len(), 16);
    assert_eq!(table[0], vec![1, 1]);
    assert_eq!(table[1], vec![2, 1]);
    assert_eq!(table[3], vec![6, 1]);
    assert_eq!(table[4], vec![1, 2]);
    assert_eq!(table[15], vec![6, 6]);
}

#[test]
fn tuples_of_no_places() {
    assert_eq!(torsion_coeff(6, 0), vec![Vec::<u16>::new()]);
    assert_eq!(torsion_coeff(5, 3).len(), 8);
    assert_eq!(torsion_coeff(5, 3)[7], vec![5, 5, 5]);
}
