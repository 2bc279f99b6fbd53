use std::sync::Arc;
use szymczak::ralg::module::canon::mark::Mark;
use szymczak::ralg::module::canon::MarkTree;

fn id(s: &str) -> Arc<str> {
    Arc::from(s)
}

#[test]
fn marks_keep_their_identifier() {
    let m = Mark::new(5u8, id("a"));
    let r = m.clone().replace(7u16);
    assert_eq!(r.thing, 7);
    assert_eq!(r, Mark::new(7u16, id("a")));
    let doubled = m.map(|x| x * 2);
    assert_eq!(doubled, Mark::new(10u8, id("a")));
}

#[test]
fn transmuting_marks() {
    assert_eq!(Mark::new(Some(3u8), id("x")).transmute(), Some(Mark::new(3u8, id("x"))));
    assert_eq!(Mark::new(None::<u8>, id("x")).transmute(), None);
}

#[test]
fn fresh_marks_differ() {
    let a = Mark::from(4u8);
    let b = a.duplicate();
    assert_eq!(a.thing, b.thing);
    assert_ne!(a, b);
}

#[test]
fn mark_trees_are_sorted_sets() {
    let mut t = MarkTree::<u8>::default();
    assert!(t.is_empty());
    t.insert(Mark::new(2, id("b")));
    t.insert(Mark::new(5, id("a")));
    t.insert(Mark::new(2, id("a")));
    t.insert(Mark::new(2, id("a")));
    assert_eq!(t.len(), 3);
    let things: Vec<u8> = t.things().into_iter().copied().collect();
    assert_eq!(things, vec![5, 2, 2]);
    assert_eq!(t.iter()[1], Mark::new(2, id("a")));
    assert_eq!(t.iter()[2], Mark::new(2, id("b")));
    assert!(t.contains(&Mark::new(2, id("b"))));
    assert!(!t.contains(&Mark::new(3, id("b"))));
    assert!(t.remove(&Mark::new(2, id("b"))));
    assert!(!t.remove(&Mark::new(2, id("b"))));
    assert_eq!(t.clone().into_things(), vec![5, 2]);
    assert_eq!(t.into_iter(), vec![Mark::new(5, id("a")), Mark::new(2, id("a"))]);
}

#[test]
fn equivalent_mark_trees() {
    let mut t = MarkTree::<u8>::new();
    t.insert(Mark::new(3, id("a")));
    t.insert(Mark::new(1, id("b")));
    let d = t.duplicate();
    assert_eq!(d.len(), 2);
    assert!(t.is_equivalent(&d));
    assert_ne!(t, d);
    let mut u = MarkTree::<u8>::new();
    u.insert(Mark::new(3, id("z")));
    u.insert(Mark::new(2, id("z")));
    assert!(!t.is_equivalent(&u));
}

#[test]
fn equivalence_pairs_marks_as_far_as_both_go() {
    let mut t = MarkTree::<u8>::new();
    t.insert(Mark::new(3, id("a")));
    let empty = MarkTree::<u8>::new();
    assert!(empty.is_equivalent(&t));
    assert!(t.is_equivalent(&empty));
    let mut longer = MarkTree::<u8>::new();
    longer.insert(Mark::new(3, id("b")));
    longer.insert(Mark::new(1, id("b")));
    assert!(t.is_equivalent(&longer));
    let mut other = MarkTree::<u8>::new();
    other.insert(Mark::new(4, id("b")));
    other.insert(Mark::new(3, id("b")));
    assert!(!t.is_equivalent(&other));
}

#[test]
fn things_follow_the_marks_in_order() {
    let mut t = MarkTree::<u8>::new();
    t.insert(Mark::new(2, id("c")));
    t.insert(Mark::new(7, id("a")));
    t.insert(Mark::new(2, id("a")));
    t.insert(Mark::new(4, id("b")));
    let things: Vec<u8> = t.things().into_iter().copied().collect();
    let from_marks: Vec<u8> = t.iter().iter().map(|m| *m.thing()).collect();
    assert_eq!(things, from_marks);
    assert_eq!(things.len(), t.len());
    for w in things.windows(2) {
        assert!(w[0] >= w[1]);
    }
}
