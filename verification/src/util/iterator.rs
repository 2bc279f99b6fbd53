//! Cartesian powers of a list, and removal of repeated items.
use vstd::prelude::*;
use itertools::Itertools;
use crate::rmodule::ring::Zahl;
use crate::util::order::Ranked;
use crate::util::seq::copy_range;

verus! {

/// Every sequence of `n` items of `items`, in lexicographic order of the
/// positions (the last position changes fastest); for `n == 0` the one empty
/// sequence.
pub open spec fn power_seqs<T>(items: Seq<T>, n: nat) -> Seq<Seq<T>>
    decreases n,
{
    if n == 0 {
        seq![Seq::empty()]
    } else {
        power_seqs(items, (n - 1) as nat).map_values(|p: Seq<T>| items.map_values(|x: T| p.push(x))).flatten()
    }
}

/// An item of a flattened list is an item of one of the lists.
proof fn lemma_flatten_member<A>(ss: Seq<Seq<A>>, k: int)
    requires
        0 <= k < ss.flatten().len(),
    ensures
        exists|a: int, b: int| 0 <= a < ss.len() && 0 <= b < ss[a].len() && ss.flatten()[k] == #[trigger] ss[a][b],
    decreases ss.len(),
{
    if ss.len() > 0 {
        let f = ss.first();
        assert(ss.flatten() == f + ss.drop_first().flatten());
        if k < f.len() {
            assert(ss.flatten()[k] == ss[0][k]);
        } else {
            lemma_flatten_member(ss.drop_first(), k - f.len());
            let (a, b) = choose|a: int, b: int|
                0 <= a < ss.drop_first().len() && 0 <= b < ss.drop_first()[a].len() && ss.drop_first().flatten()[k - f.len()]
                    == #[trigger] ss.drop_first()[a][b];
            assert(ss[a + 1][b] == ss.flatten()[k]);
        }
    }
}

/// Every sequence of `power_seqs(items, n)` has `n` items.
pub proof fn lemma_power_seqs_len<T>(items: Seq<T>, n: nat)
    ensures
        forall|i: int| 0 <= i < power_seqs(items, n).len() ==> (#[trigger] power_seqs(items, n)[i]).len() == n,
    decreases n,
{
    if n > 0 {
        lemma_power_seqs_len(items, (n - 1) as nat);
        let prev = power_seqs(items, (n - 1) as nat);
        let ss = prev.map_values(|p: Seq<T>| items.map_values(|x: T| p.push(x)));
        assert forall|i: int| 0 <= i < power_seqs(items, n).len() implies (#[trigger] power_seqs(items, n)[i]).len() == n by {
            lemma_flatten_member(ss, i);
            let (a, b) = choose|a: int, b: int| 0 <= a < ss.len() && 0 <= b < ss[a].len() && ss.flatten()[i] == #[trigger] ss[a][b];
            assert(ss[a][b] == prev[a].push(items[b]));
        }
    }
}

/// Every item of every sequence of `power_seqs(items, n)` is an item of `items`.
pub proof fn lemma_power_seqs_members<T>(items: Seq<T>, n: nat)
    ensures
        forall|i: int, j: int|
            0 <= i < power_seqs(items, n).len() && 0 <= j < power_seqs(items, n)[i].len() ==> items.contains(
                #[trigger] power_seqs(items, n)[i][j],
            ),
    decreases n,
{
    if n > 0 {
        lemma_power_seqs_members(items, (n - 1) as nat);
        let prev = power_seqs(items, (n - 1) as nat);
        let ss = prev.map_values(|p: Seq<T>| items.map_values(|x: T| p.push(x)));
        assert forall|i: int, j: int|
            0 <= i < power_seqs(items, n).len() && 0 <= j < power_seqs(items, n)[i].len() implies items.contains(
            #[trigger] power_seqs(items, n)[i][j],
        ) by {
            lemma_flatten_member(ss, i);
            let (a, b) = choose|a: int, b: int| 0 <= a < ss.len() && 0 <= b < ss[a].len() && ss.flatten()[i] == #[trigger] ss[a][b];
            let p = prev[a];
            assert(ss[a][b] == p.push(items[b]));
            if j < p.len() {
                assert(p.push(items[b])[j] == p[j]);
                assert(items.contains(prev[a][j]));
            } else {
                assert(p.push(items[b])[j] == items[b]);
            }
        }
    }
}

/// Every sequence that takes one item of each of the lists of `seqs`, in
/// lexicographic order of the positions (the last position changes
/// fastest); for no lists the one empty sequence.
pub open spec fn cartesian<T>(seqs: Seq<Seq<T>>) -> Seq<Seq<T>>
    decreases seqs.len(),
{
    if seqs.len() == 0 {
        seq![Seq::empty()]
    } else {
        cartesian(seqs.drop_last()).map_values(|p: Seq<T>| seqs.last().map_values(|x: T| p.push(x))).flatten()
    }
}

/// The sequences of `n` items of `items` are those that take one item of
/// each of `n` copies of `items`.
pub proof fn lemma_power_seqs_cartesian<T>(items: Seq<T>, n: nat)
    ensures
        power_seqs(items, n) == cartesian(Seq::new(n, |i: int| items)),
    decreases n,
{
    if n > 0 {
        lemma_power_seqs_cartesian(items, (n - 1) as nat);
        assert(Seq::new(n, |i: int| items).drop_last() =~= Seq::new((n - 1) as nat, |i: int| items));
    }
}

/// `Itertools::multi_cartesian_product` over the lists of `seqs`: the
/// contract claims every sequence that takes one item of each list, the
/// last position changing fastest, and for no lists the one empty sequence.
#[verifier::external_body]
pub(crate) fn multi_cartesian<T: Copy>(seqs: &Vec<Vec<T>>) -> (r: Vec<Vec<T>>)
    ensures
        r@.map_values(|v: Vec<T>| v@) == cartesian(seqs@.map_values(|v: Vec<T>| v@)),
{
    seqs.iter().map(|s| s.iter().copied()).multi_cartesian_product().collect()
}

/// Every sequence of `n` items of `items`, the last position changing
/// fastest.
pub fn product<T: Copy>(items: Vec<T>, n: Zahl) -> (r: Vec<Vec<T>>)
    ensures
        r@.map_values(|v: Vec<T>| v@) == power_seqs(items@, n as nat),
{
    let mut copies: Vec<Vec<T>> = Vec::new();
    let mut i: Zahl = 0;
    while i < n
        invariant
            i <= n,
            copies@.len() == i,
            forall|k: int| 0 <= k < i ==> (#[trigger] copies@[k])@ == items@,
        decreases n - i,
    {
        copies.push(copy_all(&items));
        i = i + 1;
    }
    proof {
        assert(copies@.map_values(|v: Vec<T>| v@) =~= Seq::new(n as nat, |k: int| items@));
        lemma_power_seqs_cartesian(items@, n as nat);
    }
    multi_cartesian(&copies)
}

/// A copy of the list.
fn copy_all<T: Copy>(items: &Vec<T>) -> (c: Vec<T>)
    ensures
        c@ == items@,
{
    let c = copy_range(items, 0, items.len());
    proof {
        assert(c@ =~= items@);
    }
    c
}

/// The items of `s` that do not occur earlier in `s`, in order.
pub open spec fn first_occurrences<T>(s: Seq<T>) -> Seq<T>
    decreases s.len(),
{
    if s.len() == 0 {
        Seq::empty()
    } else if s.drop_last().contains(s.last()) {
        first_occurrences(s.drop_last())
    } else {
        first_occurrences(s.drop_last()).push(s.last())
    }
}

/// Removal of repeated items.
pub trait Dedup<T> {
    spec fn items(&self) -> Seq<T>;

    /// Keeps the first occurrence of every item, in order.
    fn clear_duplicates(&mut self)
        ensures
            final(self).items() == first_occurrences(old(self).items()),
    ;
}

proof fn lemma_first_occurrences_contains<T>(s: Seq<T>, x: T)
    ensures
        first_occurrences(s).contains(x) <==> s.contains(x),
    decreases s.len(),
{
    if s.len() > 0 {
        let d = s.drop_last();
        lemma_first_occurrences_contains(d, x);
        assert(s == d.push(s.last()));
        if d.contains(s.last()) {
            if x == s.last() {
            }
        } else {
            let f = first_occurrences(d);
            assert(f.push(s.last()).contains(x) <==> (f.contains(x) || x == s.last())) by {
                if f.push(s.last()).contains(x) {
                    let i = choose|i: int| 0 <= i < f.len() + 1 && f.push(s.last())[i] == x;
                    if i < f.len() {
                        assert(f[i] == x);
                    }
                }
                if f.contains(x) {
                    let i = choose|i: int| 0 <= i < f.len() && f[i] == x;
                    assert(f.push(s.last())[i] == x);
                }
                if x == s.last() {
                    assert(f.push(s.last())[f.len() as int] == x);
                }
            }
        }
        assert(s.contains(x) <==> (d.contains(x) || x == s.last())) by {
            if s.contains(x) {
                let i = choose|i: int| 0 <= i < s.len() && s[i] == x;
                if i < d.len() {
                    assert(d[i] == x);
                }
            }
            if d.contains(x) {
                let i = choose|i: int| 0 <= i < d.len() && d[i] == x;
                assert(s[i] == x);
            }
        }
    }
}

impl<T: Ranked> Dedup<T> for Vec<T> {
    open spec fn items(&self) -> Seq<T> {
        self@
    }

    fn clear_duplicates(&mut self) {
        let ghost s = self@;
        let mut kept: Vec<T> = Vec::new();
        let mut i: usize = 0;
        while i < self.len()
            invariant
                self@ == s,
                i <= s.len(),
                kept@ == first_occurrences(s.take(i as int)),
            decreases s.len() - i,
        {
            let x = self[i];
            let mut j: usize = 0;
            let mut seen = false;
            while j < kept.len()
                invariant
                    j <= kept@.len(),
                    seen <==> exists|k: int| 0 <= k < j && kept@[k] == x,
                decreases kept@.len() - j,
            {
                if kept[j].rank_eq(&x) {
                    proof {
                        T::lemma_rank_injective(kept@[j as int], x);
                    }
                    seen = true;
                }
                j = j + 1;
            }
            proof {
                assert(s.take(i + 1).drop_last() =~= s.take(i as int));
                assert(s.take(i + 1).last() == x);
                lemma_first_occurrences_contains(s.take(i as int), x);
                if seen {
                    let k = choose|k: int| 0 <= k < j && kept@[k] == x;
                    assert(kept@.contains(x));
                } else {
                    if kept@.contains(x) {
                        let k = choose|k: int| 0 <= k < kept@.len() && kept@[k] == x;
                        assert(false);
                    }
                }
            }
            if !seen {
                kept.push(x);
            }
            i = i + 1;
        }
        proof {
            assert(s.take(i as int) =~= s);
        }
        *self = kept;
    }
}

/// Whether two lists have the same entries.
fn same_entries(a: &Vec<Zahl>, b: &Vec<Zahl>) -> (r: bool)
    ensures
        r == (a@ == b@),
{
    if a.len() != b.len() {
        return false;
    }
    let mut i: usize = 0;
    while i < a.len()
        invariant
            a@.len() == b@.len(),
            i <= a@.len(),
            forall|k: int| 0 <= k < i ==> a@[k] == b@[k],
        decreases a@.len() - i,
    {
        if a[i] != b[i] {
            return false;
        }
        i += 1;
    }
    proof {
        assert(a@ =~= b@);
    }
    true
}

/// Lists of integers, told apart by their entries.
impl Dedup<Seq<Zahl>> for Vec<Vec<Zahl>> {
    open spec fn items(&self) -> Seq<Seq<Zahl>> {
        self@.map_values(|v: Vec<Zahl>| v@)
    }

    fn clear_duplicates(&mut self) {
        let ghost s = self@.map_values(|v: Vec<Zahl>| v@);
        let mut kept: Vec<Vec<Zahl>> = Vec::new();
        let mut i: usize = 0;
        while i < self.len()
            invariant
                self@.map_values(|v: Vec<Zahl>| v@) == s,
                i <= s.len(),
                kept@.map_values(|v: Vec<Zahl>| v@) == first_occurrences(s.take(i as int)),
            decreases s.len() - i,
        {
            let ghost x = s[i as int];
            let ghost ks = kept@.map_values(|v: Vec<Zahl>| v@);
            assert(self@[i as int]@ == x);
            let mut j: usize = 0;
            let mut seen = false;
            while j < kept.len()
                invariant
                    ks == kept@.map_values(|v: Vec<Zahl>| v@),
                    i < self@.len(),
                    self@[i as int]@ == x,
                    j <= ks.len(),
                    seen <==> exists|k: int| 0 <= k < j && ks[k] == x,
                decreases ks.len() - j,
            {
                if same_entries(&kept[j], &self[i]) {
                    assert(ks[j as int] == x);
                    seen = true;
                }
                j = j + 1;
            }
            proof {
                assert(s.take(i + 1).drop_last() =~= s.take(i as int));
                assert(s.take(i + 1).last() == x);
                lemma_first_occurrences_contains(s.take(i as int), x);
                if seen {
                    let k = choose|k: int| 0 <= k < j && ks[k] == x;
                    assert(ks.contains(x));
                } else {
                    if ks.contains(x) {
                        let k = choose|k: int| 0 <= k < ks.len() && ks[k] == x;
                        assert(false);
                    }
                }
            }
            if !seen {
                let c = copy_range(&self[i], 0, self[i].len());
                proof {
                    assert(c@ =~= x);
                }
                kept.push(c);
                proof {
                    assert(kept@.map_values(|v: Vec<Zahl>| v@) =~= ks.push(x));
                }
            }
            i = i + 1;
        }
        proof {
            assert(s.take(i as int) =~= s);
        }
        *self = kept;
    }
}

} // verus!
