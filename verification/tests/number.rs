use szymczak::util::number::{are_coprime, divisors, versor};

#[test]
fn util_divisors_of_small_ints() {
    assert_eq!(divisors(6), vec![1, 2, 3, 6]);
    assert_eq!(divisors(7), vec![1, 7]);
    assert_eq!(divisors(8), vec![1, 2, 4, 8]);
    assert_eq!(divisors(9), vec![1, 3, 9]);
}

#[test]
fn number_divisors_of_small_ints() {
    assert_eq!(divisors(6), vec![1, 2, 3, 6]);
    assert_eq!(divisors(7), vec![1, 7]);
    assert_eq!(divisors(8), vec![1, 2, 4, 8]);
    assert_eq!(divisors(9), vec![1, 3, 9]);
}

#[test]
fn util_coprimality() {
    assert!(are_coprime(1, 3));
    assert!(are_coprime(2, 3));
    assert!(!are_coprime(2, 4));
}

#[test]
fn number_coprimality() {
    assert!(are_coprime(1, 3));
    assert!(are_coprime(2, 3));
    assert!(!are_coprime(2, 4));
}

#[test]
fn util_versors() {
    assert_eq!(versor(0, 3), vec![1, 0, 0]);
    assert_eq!(versor(2, 3), vec![0, 0, 1]);
    assert_eq!(versor(4, 4), vec![0, 0, 0, 0]);
    assert_eq!(versor(1, 5), vec![0, 1, 0, 0, 0]);
}

#[test]
fn number_versors() {
    assert_eq!(versor(0, 3), vec![1, 0, 0]);
    assert_eq!(versor(2, 3), vec![0, 0, 1]);
    assert_eq!(versor(4, 4), vec![0, 0, 0, 0]);
    assert_eq!(versor(1, 5), vec![0, 1, 0, 0, 0]);
}
