use szymczak::rmodule::ring::Fin;

#[test]
fn finset_negation() {
    assert_eq!(Fin::<3>::new(1).add(Fin::<3>::new(1).neg()), Fin::<3>::new(0));
    assert_eq!(Fin::<3>::new(2).add(Fin::<3>::new(2).neg()), Fin::<3>::new(0));
}

#[test]
fn finset_addition() {
    assert_eq!(Fin::<3>::new(1).add(Fin::<3>::new(1)), Fin::<3>::new(2));
    assert_eq!(Fin::<3>::new(1).add(Fin::<3>::new(2)), Fin::<3>::new(0));
    assert_eq!(Fin::<3>::new(1).add(Fin::<3>::new(5)), Fin::<3>::new(0));
}

#[test]
fn finset_multiplication() {
    assert_eq!(Fin::<3>::new(1).mul(Fin::<3>::new(1)), Fin::<3>::new(1));
    assert_eq!(Fin::<3>::new(1).mul(Fin::<3>::new(2)), Fin::<3>::new(2));
    assert_eq!(Fin::<3>::new(1).mul(Fin::<3>::new(5)), Fin::<3>::new(2));
}

#[test]
fn finset_remainder() {
    assert_eq!(Fin::<6>::new(5).rem(Fin::<6>::new(3)), Fin::<6>::new(2));
    assert_eq!(Fin::<8>::new(7).rem(Fin::<8>::new(4)), Fin::<8>::new(3));
    assert_eq!(Fin::<8>::new(7).rem(Fin::<8>::new(2)), Fin::<8>::new(1));
}
