//! Things marked with a random identifier, so that equal things can be told
//! apart in a sorted set.
use vstd::prelude::*;
use vstd::string::StringSliceAdditionalSpecFns;
use std::sync::Arc;
use crate::util::ident::{fresh_arc_id, share_arc};
use crate::util::order::{
    bytes_lt, compare_strs, lemma_bytes_lt_asymmetric, lemma_bytes_lt_irreflexive, lemma_bytes_lt_total,
    lemma_bytes_lt_transitive, Ranked,
};

verus! {

/// A thing together with the identifier that tells it apart from equal
/// things.
#[derive(Clone, Debug, PartialEq, Eq, Hash)]
pub struct Mark<T> {
    pub thing: T,
    index: Arc<str>,
}

impl<T> Mark<T> {
    /// The thing.
    pub closed spec fn held(&self) -> T {
        self.thing
    }

    /// The bytes of the identifier.
    pub closed spec fn tag(&self) -> Seq<u8> {
        self.index.spec_bytes()
    }

    /// The thing.
    pub fn thing(&self) -> (t: &T)
        ensures
            *t == self.held(),
    {
        &self.thing
    }

    pub fn new(thing: T, index: Arc<str>) -> (m: Self)
        ensures
            m.held() == thing,
            m.tag() == index.spec_bytes(),
    {
        Self { thing, index }
    }

    /// The same identifier on another thing.
    pub fn replace<S>(self, new_thing: S) -> (m: Mark<S>)
        ensures
            m.held() == new_thing,
            m.tag() == self.tag(),
    {
        Mark { thing: new_thing, index: self.index }
    }

    /// The same identifier on the image of the thing under `f`.
    pub fn map<S, F: FnOnce(T) -> S>(self, f: F) -> (m: Mark<S>)
        requires
            call_requires(f, (self.held(),)),
        ensures
            call_ensures(f, (self.held(),), m.held()),
            m.tag() == self.tag(),
    {
        Mark { thing: f(self.thing), index: self.index }
    }

    /// The thing with a fresh random identifier.
    pub fn from(thing: T) -> (m: Self)
        ensures
            m.held() == thing,
    {
        Self { thing, index: fresh_arc_id() }
    }
}

impl<T: Clone> Mark<T> {
    /// A copy of the thing with a fresh random identifier.
    pub fn duplicate(&self) -> (m: Self)
        ensures
            cloned(self.held(), m.held()),
    {
        Self::from(self.thing.clone())
    }
}

impl<T> Mark<Option<T>> {
    /// The mark of the thing inside, when there is one.
    pub fn transmute(self) -> (m: Option<Mark<T>>)
        ensures
            match self.held() {
                Some(t) => m matches Some(x) && x.held() == t && x.tag() == self.tag(),
                None => m is None,
            },
    {
        let (maybe_thing, index) = (self.thing, self.index);
        match maybe_thing {
            Some(thing) => Some(Mark { thing, index }),
            None => None,
        }
    }
}

impl<T: Ranked> Mark<T> {
    /// The same mark, sharing the identifier.
    pub fn copy(&self) -> (m: Self)
        ensures
            m == *self,
            m.tag() == self.tag(),
    {
        Mark { thing: self.thing, index: share_arc(&self.index) }
    }
}

/// Marks are ordered by thing, larger first, and among equal things by
/// identifier, smaller first: `a` comes before `b`.
pub open spec fn mark_before<T: Ranked>(a: Mark<T>, b: Mark<T>) -> bool {
    ||| a.held().rank() > b.held().rank()
    ||| a.held().rank() == b.held().rank() && bytes_lt(a.tag(), b.tag())
}

/// Two marks with the same thing and the same identifier.
pub open spec fn same_mark<T: Ranked>(a: Mark<T>, b: Mark<T>) -> bool {
    a.held().rank() == b.held().rank() && a.tag() == b.tag()
}

pub proof fn lemma_mark_trichotomy<T: Ranked>(a: Mark<T>, b: Mark<T>)
    ensures
        mark_before(a, b) || same_mark(a, b) || mark_before(b, a),
        !(mark_before(a, b) && same_mark(a, b)),
        !(mark_before(b, a) && same_mark(a, b)),
        !(mark_before(a, b) && mark_before(b, a)),
{
    lemma_bytes_lt_total(a.tag(), b.tag());
    lemma_bytes_lt_irreflexive(a.tag());
    lemma_bytes_lt_asymmetric(a.tag(), b.tag());
}

pub proof fn lemma_mark_transitive<T: Ranked>(a: Mark<T>, b: Mark<T>, c: Mark<T>)
    requires
        mark_before(a, b),
        mark_before(b, c),
    ensures
        mark_before(a, c),
{
    if a.held().rank() == b.held().rank() && b.held().rank() == c.held().rank() {
        lemma_bytes_lt_transitive(a.tag(), b.tag(), c.tag());
    }
}

/// Three-way comparison of marks: -1, 0 or 1 as `a` comes before `b`, is the
/// same mark, or comes after.
pub fn compare_marks<T: Ranked>(a: &Mark<T>, b: &Mark<T>) -> (c: i8)
    ensures
        c == -1 <==> mark_before(*a, *b),
        c == 0 <==> same_mark(*a, *b),
        c == 1 <==> mark_before(*b, *a),
{
    proof {
        lemma_mark_trichotomy(*a, *b);
    }
    if b.thing.rank_lt(&a.thing) {
        -1
    } else if a.thing.rank_lt(&b.thing) {
        1
    } else {
        let x: &str = &a.index;
        let y: &str = &b.index;
        compare_strs(x, y)
    }
}

} // verus!
