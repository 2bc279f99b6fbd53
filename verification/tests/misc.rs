use szymczak::error::Error;
use szymczak::rmodule::ring::{Fin, Ring};
use szymczak::util::iterator::{product, Dedup};
use szymczak::util::order::compare_strs;

#[test]
fn error_messages() {
    assert_eq!(Error::PartialMap.message(), "element not found in map.");
    assert_eq!(Error::InvalidElement.message(), "element dimension does not match module dimension.");
    assert_eq!(
        Error::SourceTargetMismatch.message(),
        "cannot compose morphisms due to source/target mismatch."
    );
}

#[test]
fn string_order() {
    assert_eq!(compare_strs("abc", "abd"), -1);
    assert_eq!(compare_strs("abc", "ab"), 1);
    assert_eq!(compare_strs("ab", "ab"), 0);
    assert_eq!(compare_strs("", "a"), -1);
}

#[test]
fn products_of_nothing() {
    assert_eq!(product(vec![1u8, 2], 0), vec![Vec::<u8>::new()]);
    assert_eq!(product(Vec::<u8>::new(), 2), Vec::<Vec<u8>>::new());
    assert_eq!(product(vec![7u8], 2), vec![vec![7, 7]]);
}

#[test]
fn deduplicating_twice_changes_nothing() {
    let mut v: Vec<u16> = vec![3, 3, 1, 3, 2, 1];
    v.clear_duplicates();
    assert_eq!(v, vec![3, 1, 2]);
    let w = v.clone();
    v.clear_duplicates();
    assert_eq!(v, w);
}

#[test]
fn ring_interface_of_z_mod_n() {
    type R = Fin<12>;
    assert!(<R as Ring>::is_zero(&R::new(12)));
    assert!(<R as Ring>::is_one(&R::new(13)));
    assert_eq!(<R as Ring>::ideals(), vec![R::new(1), R::new(2), R::new(3), R::new(4), R::new(6), R::new(12)]);
    assert_eq!(<R as Ring>::subideals(&R::new(6)), vec![R::new(1), R::new(2), R::new(3), R::new(6)]);
    assert_eq!(<R as Ring>::divide_by(&R::new(8), &R::new(4)), R::new(2));
    assert_eq!(<R as Ring>::divide_by(&R::new(8), &R::new(3)), R::new(8));
}

#[test]
fn greatest_common_divisors_in_z_mod_n() {
    type R = Fin<36>;
    assert_eq!(R::new(12).gcd(R::new(18)), R::new(6));
    assert_eq!(R::new(12).gcd_binary(R::new(18)), R::new(6));
    assert_eq!(R::new(12).gcd_euclid(R::new(18)), R::new(6));
    assert_eq!(R::new(0).gcd(R::new(8)), R::new(4));
    assert_eq!(R::elements().len(), 36);
    assert_eq!(R::new(40).get(), 4);
}
