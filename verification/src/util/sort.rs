//! A stable sort of tagged items by their coefficient.
use vstd::prelude::*;
use crate::rmodule::ring::Fin;

verus! {

/// `x` comes strictly before `y`: larger first when `desc`, smaller first
/// otherwise, comparing representatives.
pub open spec fn goes_before<const N: u16>(x: Fin<N>, y: Fin<N>, desc: bool) -> bool {
    if desc {
        x.raw() > y.raw()
    } else {
        x.raw() < y.raw()
    }
}

/// Where an item with coefficient `x` goes into `s`: before the first item
/// that it comes strictly before, after all the others.
pub open spec fn insertion_point<A, const N: u16>(s: Seq<(A, Fin<N>)>, x: Fin<N>, desc: bool) -> int
    decreases s.len(),
{
    if s.len() == 0 || goes_before(x, s[0].1, desc) {
        0
    } else {
        1 + insertion_point(s.drop_first(), x, desc)
    }
}

/// The items sorted by coefficient, stably: each item, taken in order, goes
/// after every earlier one that it does not come strictly before.
pub open spec fn stable_sorted<A, const N: u16>(items: Seq<(A, Fin<N>)>, desc: bool) -> Seq<(A, Fin<N>)>
    decreases items.len(),
{
    if items.len() == 0 {
        Seq::empty()
    } else {
        let s = stable_sorted(items.drop_last(), desc);
        s.insert(insertion_point(s, items.last().1, desc), items.last())
    }
}

proof fn lemma_insertion_point_range<A, const N: u16>(s: Seq<(A, Fin<N>)>, x: Fin<N>, desc: bool)
    ensures
        0 <= insertion_point(s, x, desc) <= s.len(),
        forall|j: int| 0 <= j < insertion_point(s, x, desc) ==> !goes_before(x, (#[trigger] s[j]).1, desc),
        insertion_point(s, x, desc) < s.len() ==> goes_before(x, s[insertion_point(s, x, desc)].1, desc),
    decreases s.len(),
{
    if s.len() > 0 && !goes_before(x, s[0].1, desc) {
        lemma_insertion_point_range(s.drop_first(), x, desc);
        assert forall|j: int| 0 <= j < insertion_point(s, x, desc) implies !goes_before(x, (#[trigger] s[j]).1, desc) by {
            if j > 0 {
                assert(s[j] == s.drop_first()[j - 1]);
            }
        }
    }
}

/// Sorting keeps the number of items.
pub proof fn lemma_stable_sorted_len<A, const N: u16>(items: Seq<(A, Fin<N>)>, desc: bool)
    ensures
        stable_sorted(items, desc).len() == items.len(),
    decreases items.len(),
{
    if items.len() > 0 {
        lemma_stable_sorted_len(items.drop_last(), desc);
        lemma_insertion_point_range(stable_sorted(items.drop_last(), desc), items.last().1, desc);
    }
}

/// Sorts the items by coefficient, stably: larger first when `desc`,
/// smaller first otherwise.
pub fn sort_by_coeff<A, const N: u16>(items: Vec<(A, Fin<N>)>, desc: bool) -> (out: Vec<(A, Fin<N>)>)
    ensures
        out@ == stable_sorted(items@, desc),
{
    let ghost all = items@;
    let mut items = items;
    let mut rev: Vec<(A, Fin<N>)> = Vec::new();
    while items.len() > 0
        invariant
            all == items@ + rev@.reverse(),
        decreases items@.len(),
    {
        let ghost before = items@;
        let last = items.pop().unwrap();
        proof {
            assert(before == items@.push(last));
            assert(rev@.push(last).reverse() =~= seq![last] + rev@.reverse());
            assert(all =~= items@ + rev@.push(last).reverse());
        }
        rev.push(last);
    }
    let mut out: Vec<(A, Fin<N>)> = Vec::new();
    let ghost mut done: int = 0;
    proof {
        assert(all =~= rev@.reverse());
        assert(all.take(0) =~= Seq::<(A, Fin<N>)>::empty());
    }
    while rev.len() > 0
        invariant
            0 <= done <= all.len(),
            all.take(done) + rev@.reverse() == all,
            out@ == stable_sorted(all.take(done), desc),
        decreases rev@.len(),
    {
        let ghost before = rev@;
        let item = rev.pop().unwrap();
        proof {
            assert(before == rev@.push(item));
            assert(before.reverse() =~= seq![item] + rev@.reverse());
            assert(all[done] == item) by {
                assert(all == all.take(done) + before.reverse());
            }
            lemma_stable_sorted_len(all.take(done), desc);
        }
        let x = item.1;
        let mut p: usize = 0;
        proof {
            assert(out@.skip(0) =~= out@);
            lemma_insertion_point_range(out@, x, desc);
        }
        while p < out.len() && !less_key(x, out[p].1, desc)
            invariant
                p <= out@.len(),
                forall|j: int| 0 <= j < p ==> !goes_before(x, (#[trigger] out@[j]).1, desc),
                insertion_point(out@, x, desc) >= p,
                insertion_point(out@.skip(p as int), x, desc) == insertion_point(out@, x, desc) - p,
            decreases out@.len() - p,
        {
            proof {
                let t = out@.skip(p as int);
                assert(t[0] == out@[p as int]);
                assert(t.drop_first() =~= out@.skip(p + 1));
                lemma_insertion_point_range(out@.skip(p + 1), x, desc);
            }
            p += 1;
        }
        proof {
            let t = out@.skip(p as int);
            if p < out@.len() {
                assert(t[0] == out@[p as int]);
            } else {
                assert(t.len() == 0);
            }
            assert(insertion_point(out@, x, desc) == p);
            assert(all.take(done + 1).drop_last() =~= all.take(done));
            assert(all.take(done + 1).last() == item);
        }
        out.insert(p, item);
        proof {
            done = done + 1;
            assert(all.take(done) + rev@.reverse() =~= all) by {
                assert(all == all.take(done - 1) + before.reverse());
                assert(before.reverse() =~= seq![item] + rev@.reverse());
                assert(all.take(done) =~= all.take(done - 1).push(item));
            }
        }
    }
    proof {
        assert(all.take(done) =~= all);
    }
    out
}

/// Whether `x` comes strictly before `y`.
fn less_key<const N: u16>(x: Fin<N>, y: Fin<N>, desc: bool) -> (b: bool)
    ensures
        b == goes_before(x, y, desc),
{
    if desc {
        x.get() > y.get()
    } else {
        x.get() < y.get()
    }
}

/// The item paired with `x`, its first part changed by `f`.
pub open spec fn map_first<A, B, const N: u16>(f: spec_fn(A) -> B) -> spec_fn((A, Fin<N>)) -> (B, Fin<N>) {
    |p: (A, Fin<N>)| (f(p.0), p.1)
}

proof fn lemma_insertion_point_map<A, B, const N: u16>(s: Seq<(A, Fin<N>)>, f: spec_fn(A) -> B, x: Fin<N>, desc: bool)
    ensures
        insertion_point(s.map_values(map_first::<A, B, N>(f)), x, desc) == insertion_point(s, x, desc),
    decreases s.len(),
{
    if s.len() > 0 {
        assert(s.map_values(map_first::<A, B, N>(f)).drop_first() =~= s.drop_first().map_values(map_first::<A, B, N>(f)));
        lemma_insertion_point_map(s.drop_first(), f, x, desc);
    }
}

/// Sorting does not look at the first parts: changing them before or after
/// gives the same.
pub proof fn lemma_sorted_map<A, B, const N: u16>(items: Seq<(A, Fin<N>)>, f: spec_fn(A) -> B, desc: bool)
    ensures
        stable_sorted(items.map_values(map_first::<A, B, N>(f)), desc) == stable_sorted(items, desc).map_values(
            map_first::<A, B, N>(f),
        ),
    decreases items.len(),
{
    if items.len() > 0 {
        let g = map_first::<A, B, N>(f);
        assert(items.map_values(g).drop_last() =~= items.drop_last().map_values(g));
        lemma_sorted_map(items.drop_last(), f, desc);
        let s = stable_sorted(items.drop_last(), desc);
        lemma_insertion_point_map(s, f, items.last().1, desc);
        lemma_insertion_point_range(s, items.last().1, desc);
        assert(s.insert(insertion_point(s, items.last().1, desc), items.last()).map_values(g) =~= s.map_values(g).insert(
            insertion_point(s, items.last().1, desc),
            g(items.last()),
        ));
    }
}

} // verus!
