//! Sorted sets of marked things.
use vstd::prelude::*;
use crate::util::order::Ranked;

pub mod mark;

use mark::{compare_marks, lemma_mark_transitive, lemma_mark_trichotomy, mark_before, same_mark, Mark};

verus! {

/// Every mark comes before the ones after it.
pub open spec fn marks_sorted<T: Ranked>(ms: Seq<Mark<T>>) -> bool {
    forall|i: int, j: int| 0 <= i < j < ms.len() ==> mark_before(#[trigger] ms[i], #[trigger] ms[j])
}

pub open spec fn has_mark<T: Ranked>(ms: Seq<Mark<T>>, m: Mark<T>) -> bool {
    exists|i: int| 0 <= i < ms.len() && same_mark(#[trigger] ms[i], m)
}

/// Some mark of `ms` holds `t`.
pub open spec fn holds_thing<T: Ranked>(ms: Seq<Mark<T>>, t: T) -> bool {
    exists|i: int| 0 <= i < ms.len() && (#[trigger] ms[i]).held() == t
}

/// The first position whose mark does not come before `m`.
fn search_marks<T: Ranked>(ms: &Vec<Mark<T>>, m: &Mark<T>) -> (j: usize)
    requires
        marks_sorted(ms@),
    ensures
        j <= ms@.len(),
        forall|i: int| 0 <= i < j ==> mark_before(#[trigger] ms@[i], *m),
        forall|i: int| j <= i < ms@.len() ==> !mark_before(#[trigger] ms@[i], *m),
        has_mark(ms@, *m) <==> (j < ms@.len() && same_mark(ms@[j as int], *m)),
{
    let mut j: usize = 0;
    while j < ms.len() && compare_marks(&ms[j], m) == -1
        invariant
            j <= ms@.len(),
            forall|i: int| 0 <= i < j ==> mark_before(#[trigger] ms@[i], *m),
        decreases ms@.len() - j,
    {
        j = j + 1;
    }
    proof {
        assert forall|i: int| j <= i < ms@.len() implies !mark_before(#[trigger] ms@[i], *m) by {
            if i > j && mark_before(ms@[i], *m) {
                lemma_mark_transitive(ms@[j as int], ms@[i], *m);
            }
        }
        if has_mark(ms@, *m) {
            let i = choose|i: int| 0 <= i < ms@.len() && same_mark(#[trigger] ms@[i], *m);
            lemma_mark_trichotomy(ms@[i], *m);
            if i > j {
                lemma_mark_trichotomy(ms@[j as int], *m);
                assert(mark_before(ms@[j as int], ms@[i]));
            }
            assert(i == j);
        }
    }
    j
}

/// A set of marked things, sorted by `mark_before`, with no mark twice.
#[derive(Clone, Debug, PartialEq, Eq, Hash)]
pub struct MarkTree<T> {
    buffer: Vec<Mark<T>>,
}

impl<T: Ranked> MarkTree<T> {
    /// The marks, in order.
    pub closed spec fn marks(&self) -> Seq<Mark<T>> {
        self.buffer@
    }

    /// The marks are sorted.
    pub open spec fn wf(&self) -> bool {
        marks_sorted(self.marks())
    }

    /// The set with no marks.
    pub fn new() -> (t: Self)
        ensures
            t.wf(),
            t.marks().len() == 0,
    {
        Self { buffer: Vec::new() }
    }

    pub fn is_empty(&self) -> (b: bool)
        ensures
            b <==> self.marks().len() == 0,
    {
        self.buffer.len() == 0
    }

    pub fn len(&self) -> (n: usize)
        ensures
            n == self.marks().len(),
    {
        self.buffer.len()
    }

    pub fn contains(&self, mark: &Mark<T>) -> (b: bool)
        requires
            self.wf(),
        ensures
            b == has_mark(self.marks(), *mark),
    {
        let j = search_marks(&self.buffer, mark);
        j < self.buffer.len() && compare_marks(&self.buffer[j], mark) == 0
    }

    /// Removes `mark`; whether it was there.
    pub fn remove(&mut self, mark: &Mark<T>) -> (b: bool)
        requires
            old(self).wf(),
        ensures
            final(self).wf(),
            b == has_mark(old(self).marks(), *mark),
            b ==> exists|j: int|
                0 <= j < old(self).marks().len() && same_mark(old(self).marks()[j], *mark) && final(self).marks()
                    == old(self).marks().remove(j),
            !b ==> final(self).marks() == old(self).marks(),
    {
        let j = search_marks(&self.buffer, mark);
        if j < self.buffer.len() && compare_marks(&self.buffer[j], mark) == 0 {
            let ghost before = self.buffer@;
            let _removed = self.buffer.remove(j);
            proof {
                let after = self.buffer@;
                assert forall|a: int, b: int| 0 <= a < b < after.len() implies mark_before(#[trigger] after[a], #[trigger] after[b]) by {
                    let a0 = if a < j { a } else { a + 1 };
                    let b0 = if b < j { b } else { b + 1 };
                    assert(after[a] == before[a0]);
                    assert(after[b] == before[b0]);
                }
            }
            true
        } else {
            false
        }
    }

    /// Whether the things agree position by position, as far as both sets
    /// go, whatever the identifiers: the marks are paired off in order, and
    /// the check stops at the end of the shorter set.
    pub fn is_equivalent(&self, other: &Self) -> (b: bool)
        ensures
            b == forall|i: int|
                0 <= i < self.marks().len() && 0 <= i < other.marks().len() ==> (#[trigger] self.marks()[i]).held()
                    == other.marks()[i].held(),
    {
        let mut i: usize = 0;
        while i < self.buffer.len() && i < other.buffer.len()
            invariant
                i <= self.marks().len(),
                i <= other.marks().len(),
                forall|k: int| 0 <= k < i ==> (#[trigger] self.marks()[k]).held() == other.marks()[k].held(),
            decreases self.marks().len() - i,
        {
            if !self.buffer[i].thing().rank_eq(other.buffer[i].thing()) {
                return false;
            }
            proof {
                T::lemma_rank_injective(self.marks()[i as int].held(), other.marks()[i as int].held());
            }
            i = i + 1;
        }
        true
    }

    /// The marks, in order.
    pub fn iter(&self) -> (r: &[Mark<T>])
        ensures
            r@ == self.marks(),
    {
        self.buffer.as_slice()
    }

    /// The marks, in order, taken out of the set.
    pub fn into_iter(self) -> (r: Vec<Mark<T>>)
        ensures
            r@ == self.marks(),
    {
        self.buffer
    }

    /// The things, in order: the thing of each mark that `iter` gives, at
    /// the same place; in a well formed set they never grow from one to the
    /// next.
    pub fn things(&self) -> (r: Vec<&T>)
        ensures
            r@.len() == self.marks().len(),
            forall|i: int| 0 <= i < r@.len() ==> *#[trigger] r@[i] == self.marks()[i].held(),
            self.wf() ==> forall|i: int, j: int|
                0 <= i < j < r@.len() ==> (*#[trigger] r@[i]).rank() >= (*#[trigger] r@[j]).rank(),
    {
        let mut r: Vec<&T> = Vec::new();
        let mut i: usize = 0;
        while i < self.buffer.len()
            invariant
                i <= self.marks().len(),
                r@.len() == i,
                forall|k: int| 0 <= k < i ==> *#[trigger] r@[k] == self.marks()[k].held(),
            decreases self.marks().len() - i,
        {
            r.push(self.buffer[i].thing());
            i = i + 1;
        }
        proof {
            if self.wf() {
                assert forall|a: int, b: int| 0 <= a < b < r@.len() implies (*#[trigger] r@[a]).rank() >= (*#[trigger] r@[b]).rank() by {
                    assert(mark_before(self.marks()[a], self.marks()[b]));
                }
            }
        }
        r
    }

    /// The things, in order, taken out of the set.
    pub fn into_things(self) -> (r: Vec<T>)
        ensures
            r@.len() == self.marks().len(),
            forall|i: int| 0 <= i < r@.len() ==> #[trigger] r@[i] == self.marks()[i].held(),
    {
        let mut r: Vec<T> = Vec::new();
        let mut i: usize = 0;
        while i < self.buffer.len()
            invariant
                i <= self.marks().len(),
                r@.len() == i,
                forall|k: int| 0 <= k < i ==> #[trigger] r@[k] == self.marks()[k].held(),
            decreases self.marks().len() - i,
        {
            r.push(*self.buffer[i].thing());
            i = i + 1;
        }
        r
    }

    /// Adds `mark` at its place, unless the same mark is there already.
    pub fn insert(&mut self, mark: Mark<T>)
        requires
            old(self).wf(),
        ensures
            final(self).wf(),
            has_mark(final(self).marks(), mark),
            forall|x: Mark<T>| has_mark(old(self).marks(), x) ==> has_mark(final(self).marks(), x),
            forall|i: int|
                0 <= i < final(self).marks().len() ==> #[trigger] final(self).marks()[i] == mark || exists|j: int|
                    0 <= j < old(self).marks().len() && final(self).marks()[i] == old(self).marks()[j],
            has_mark(old(self).marks(), mark) ==> final(self).marks() == old(self).marks(),
            !has_mark(old(self).marks(), mark) ==> final(self).marks().len() == old(self).marks().len() + 1,
    {
        let ghost ms = self.buffer@;
        let j = search_marks(&self.buffer, &mark);
        if j < self.buffer.len() && compare_marks(&self.buffer[j], &mark) == 0 {
        } else {
            self.buffer.insert(j, mark);
            proof {
                let nm = self.buffer@;
                assert(nm[j as int] == mark);
                assert forall|a: int, b: int| 0 <= a < b < nm.len() implies mark_before(#[trigger] nm[a], #[trigger] nm[b]) by {
                    if a < j && b == j {
                    } else if a == j && b > j {
                        lemma_mark_trichotomy(ms[b - 1], mark);
                    } else if a < j && b > j {
                        lemma_mark_trichotomy(ms[b - 1], mark);
                        lemma_mark_transitive(ms[a], mark, ms[b - 1]);
                    }
                }
                assert forall|x: Mark<T>| has_mark(ms, x) implies has_mark(nm, x) by {
                    let k = choose|k: int| 0 <= k < ms.len() && same_mark(#[trigger] ms[k], x);
                    if k < j {
                        assert(nm[k] == ms[k]);
                    } else {
                        assert(nm[k + 1] == ms[k]);
                    }
                }
                assert forall|i: int| 0 <= i < nm.len() implies #[trigger] nm[i] == mark || exists|k: int|
                    0 <= k < ms.len() && nm[i] == ms[k] by {
                    if i < j {
                        assert(nm[i] == ms[i]);
                    } else if i > j {
                        assert(nm[i] == ms[i - 1]);
                    }
                }
            }
        }
    }

    /// The same things with fresh random identifiers. By chance two fresh
    /// identifiers of equal things may coincide and leave one mark; the
    /// contract says what holds either way: the same things, and no more marks.
    pub fn duplicate(&self) -> (d: Self)
        requires
            self.wf(),
        ensures
            d.wf(),
            d.marks().len() <= self.marks().len(),
            forall|i: int| 0 <= i < self.marks().len() ==> holds_thing(d.marks(), #[trigger] self.marks()[i].held()),
            forall|i: int| 0 <= i < d.marks().len() ==> holds_thing(self.marks(), #[trigger] d.marks()[i].held()),
    {
        let mut d = Self::new();
        let mut i: usize = 0;
        while i < self.buffer.len()
            invariant
                self.wf(),
                d.wf(),
                i <= self.marks().len(),
                d.marks().len() <= i,
                forall|k: int| 0 <= k < i ==> holds_thing(d.marks(), #[trigger] self.marks()[k].held()),
                forall|k: int| 0 <= k < d.marks().len() ==> holds_thing(self.marks(), #[trigger] d.marks()[k].held()),
            decreases self.marks().len() - i,
        {
            let m = Mark::from(*self.buffer[i].thing());
            let ghost before = d.marks();
            d.insert(m);
            proof {
                let after = d.marks();
                let p = choose|q: int| 0 <= q < after.len() && same_mark(#[trigger] after[q], m);
                T::lemma_rank_injective(after[p].held(), m.held());
                assert(after[p].held() == self.marks()[i as int].held());
                assert forall|k: int| 0 <= k < i + 1 implies holds_thing(after, #[trigger] self.marks()[k].held()) by {
                    if k < i {
                        let q = choose|q: int| 0 <= q < before.len() && (#[trigger] before[q]).held() == self.marks()[k].held();
                        assert(has_mark(before, before[q]));
                        let r = choose|r: int| 0 <= r < after.len() && same_mark(#[trigger] after[r], before[q]);
                        T::lemma_rank_injective(after[r].held(), before[q].held());
                    }
                }
                assert forall|k: int| 0 <= k < after.len() implies holds_thing(self.marks(), #[trigger] after[k].held()) by {
                    if after[k] == m {
                        assert(self.marks()[i as int].held() == m.held());
                    } else {
                        let q = choose|q: int| 0 <= q < before.len() && after[k] == before[q];
                        assert(holds_thing(self.marks(), before[q].held()));
                    }
                }
            }
            i = i + 1;
        }
        d
    }
}

impl<T: Ranked> Default for MarkTree<T> {
    fn default() -> (t: Self)
        ensures
            t.wf(),
            t.marks().len() == 0,
    {
        Self::new()
    }
}

} // verus!
