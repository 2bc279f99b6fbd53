//! Torsion coefficients: prime power decompositions, coefficients tagged
//! with an identifier, and sorted trees of such coefficients.
use vstd::prelude::*;
use vstd::set_lib::*;
use std::collections::{BTreeSet, HashMap};
use std::rc::Rc;
use vstd::string::StringSliceAdditionalSpecFns;
use crate::matrix::Matrix;
use crate::rmodule::ring::{small_primes, Fin, Zahl};
use crate::util::ident::{fresh_rc_id, share_rc};
use crate::rmodule::ring::Ring;
use crate::util::iterator::{lemma_power_seqs_len, lemma_power_seqs_members, power_seqs, product};
use crate::util::order::{
    bytes_lt, compare_strs, lemma_bytes_lt_asymmetric, lemma_bytes_lt_irreflexive, lemma_bytes_lt_total,
    lemma_bytes_lt_transitive, Ranked,
};

verus! {

broadcast use vstd::std_specs::btree::group_btree_axioms, vstd::std_specs::hash::group_hash_axioms;

/* # factorisable values */

/// Values that split into powers of the primes of a fixed list.
pub trait Factorisable: Ranked {
    /// The primes tried, in order.
    spec fn spec_primes() -> Seq<Self>;

    /// `primes` can be called.
    spec fn has_primes() -> bool;

    /// For each prime in turn, the highest power of it that divides the
    /// value, when that power is not one.
    spec fn spec_prime_power_decomposition(&self) -> Seq<Self>;

    /// The decomposition computes in range.
    spec fn decomposable(&self) -> bool;

    fn primes() -> (v: Vec<Self>)
        requires
            Self::has_primes(),
        ensures
            v@ == Self::spec_primes(),
    ;

    fn prime_power_decomposition(&self) -> (d: Vec<Self>)
        requires
            self.decomposable(),
        ensures
            d@ == self.spec_prime_power_decomposition(),
    ;
}

/* ## in Z/N */

/// From `n`, the products `n * p`, `n * p * p`, ... (in Z/N) are tried while
/// each is new (its representative is not in `seen`) and divides `x` (the
/// remainder of the representatives is zero); the last one that passed.
pub open spec fn climb<const N: u16>(x: Fin<N>, p: Fin<N>, n: Fin<N>, seen: Set<int>, fuel: nat) -> Fin<N>
    decreases fuel,
{
    let np = Fin::spec_mul(n, p);
    if fuel > 0 && !seen.contains(np.raw()) && Fin::spec_rem(x, np).raw() == N {
        climb(x, p, np, seen.insert(np.raw()), (fuel - 1) as nat)
    } else {
        n
    }
}

/// Every product of representatives formed by `climb` fits in a `u16`.
pub open spec fn climb_ok<const N: u16>(x: Fin<N>, p: Fin<N>, n: Fin<N>, seen: Set<int>, fuel: nat) -> bool
    decreases fuel,
{
    let np = Fin::spec_mul(n, p);
    fuel == 0 || {
        &&& n.raw() * p.raw() <= u16::MAX
        &&& !seen.contains(np.raw()) && Fin::spec_rem(x, np).raw() == N ==> climb_ok(
            x,
            p,
            np,
            seen.insert(np.raw()),
            (fuel - 1) as nat,
        )
    }
}

/// The highest power of `p` that divides `x`, as found by `climb` from one.
pub open spec fn highest_power<const N: u16>(x: Fin<N>, p: Fin<N>) -> Fin<N> {
    climb(x, p, Fin::from_int(1), Set::empty(), (N + 1) as nat)
}

/// For each prime of `ps` in turn, its highest power dividing `x` when that
/// power is not one.
pub open spec fn prime_powers<const N: u16>(x: Fin<N>, ps: Seq<Fin<N>>) -> Seq<Fin<N>>
    decreases ps.len(),
{
    if ps.len() == 0 {
        Seq::empty()
    } else {
        let rest = prime_powers(x, ps.drop_last());
        let n = highest_power(x, ps.last());
        if n.raw() == Fin::<N>::from_int(1).raw() {
            rest
        } else {
            rest.push(n)
        }
    }
}

/// The primes below 32 that do not exceed N, in Z/N.
pub open spec fn fin_primes<const N: u16>() -> Seq<Fin<N>> {
    small_primes().filter(|p: int| p <= N).map_values(|p: int| Fin::<N>::from_int(p))
}

impl<const N: u16> Factorisable for Fin<N> {
    open spec fn spec_primes() -> Seq<Self> {
        fin_primes::<N>()
    }

    open spec fn has_primes() -> bool {
        N > 0
    }

    open spec fn spec_prime_power_decomposition(&self) -> Seq<Self> {
        prime_powers(*self, fin_primes::<N>())
    }

    open spec fn decomposable(&self) -> bool {
        forall|i: int|
            0 <= i < fin_primes::<N>().len() ==> climb_ok(
                *self,
                #[trigger] fin_primes::<N>()[i],
                Fin::from_int(1),
                Set::empty(),
                (N + 1) as nat,
            )
    }

    fn primes() -> (v: Vec<Self>) {
        Fin::<N>::primes()
    }

    fn prime_power_decomposition(&self) -> (d: Vec<Self>) {
        let _rep: u16 = self.get();
        let one = Self::one();
        let ps = Fin::<N>::primes();
        let mut decomposition: Vec<Self> = Vec::new();
        let mut i: usize = 0;
        while i < ps.len()
            invariant
                N > 0,
                one == Fin::<N>::from_int(1),
                ps@ == fin_primes::<N>(),
                i <= ps@.len(),
                self.decomposable(),
                decomposition@ == prime_powers(*self, ps@.take(i as int)),
            decreases ps@.len() - i,
        {
            let p = ps[i];
            let n = Self::highest_power_of(self, p, one);
            proof {
                assert(ps@.take(i + 1).drop_last() =~= ps@.take(i as int));
            }
            if n.get() != one.get() {
                decomposition.push(n);
            }
            i = i + 1;
        }
        proof {
            assert(ps@.take(ps@.len() as int) =~= ps@);
        }
        decomposition
    }
}

impl<const N: u16> Fin<N> {
    /// The highest power of `p` dividing `x` found by climbing from `one`.
    fn highest_power_of(x: &Self, p: Self, one: Self) -> (n: Self)
        requires
            N > 0,
            one == Fin::<N>::from_int(1),
            climb_ok(*x, p, one, Set::empty(), (N + 1) as nat),
        ensures
            n == highest_power(*x, p),
    {
        let mut n = one;
        let mut seen: BTreeSet<u16> = BTreeSet::new();
        let ghost mut gs: Set<int> = Set::empty();
        let ghost target = highest_power(*x, p);
        proof {
            lemma_int_range(1, N + 1);
        }
        while !seen.contains(&n.mul(p).get()) && x.rem(n.mul(p)).is_zero()
            invariant
                N > 0,
                gs.finite(),
                gs.subset_of(set_int_range(1, N + 1)),
                set_int_range(1, N + 1).finite(),
                set_int_range(1, N + 1).len() == N,
                forall|k: u16| seen@.contains(k) <==> gs.contains(k as int),
                gs.len() <= N,
                climb(*x, p, n, gs, (N + 1 - gs.len()) as nat) == target,
                climb_ok(*x, p, n, gs, (N + 1 - gs.len()) as nat),
            decreases N + 1 - gs.len(),
        {
            let np = n.mul(p);
            let r: u16 = np.get();
            proof {
                assert(!gs.contains(np.raw()));
                gs = gs.insert(np.raw());
                assert(gs.subset_of(set_int_range(1, N + 1)));
                lemma_len_subset(gs, set_int_range(1, N + 1));
            }
            seen.insert(r);
            n = np;
        }
        n
    }
}

/* ## in i8, for small examples */

/// The absolute value of `x`.
pub open spec fn abs_i8(x: i8) -> int {
    if x < 0 {
        -(x as int)
    } else {
        x as int
    }
}

/// From `n`, the products `n * p`, `n * p * p`, ... are tried while they
/// stay below 128 and divide `a`; the last one that passed.
pub open spec fn climb_small(a: int, p: int, n: int) -> int
    decreases 128 - n,
{
    if 1 <= n && 2 <= p && n * p <= 127 && a % (n * p) == 0 {
        proof {
            assert(n * p >= n + n) by (nonlinear_arith)
                requires
                    1 <= n,
                    2 <= p,
            ;
        }
        climb_small(a, p, n * p)
    } else {
        n
    }
}

/// For each prime of `ps` in turn, its highest power below 128 dividing `a`
/// when that power is not one.
pub open spec fn prime_powers_small(a: int, ps: Seq<i8>) -> Seq<i8>
    decreases ps.len(),
{
    if ps.len() == 0 {
        Seq::empty()
    } else {
        let rest = prime_powers_small(a, ps.drop_last());
        let n = climb_small(a, ps.last() as int, 1);
        if n == 1 {
            rest
        } else {
            rest.push(n as i8)
        }
    }
}

proof fn lemma_climb_small_bound(a: int, p: int, n: int)
    requires
        1 <= n <= 127,
    ensures
        1 <= climb_small(a, p, n) <= 127,
    decreases 128 - n,
{
    if 1 <= n && 2 <= p && n * p <= 127 && a % (n * p) == 0 {
        assert(n * p >= n + n) by (nonlinear_arith)
            requires
                1 <= n,
                2 <= p,
        ;
        lemma_climb_small_bound(a, p, n * p);
    }
}

/// The primes below 32, as `i8`.
pub open spec fn small_primes_i8() -> Seq<i8> {
    small_primes().map_values(|p: int| p as i8)
}

impl Factorisable for i8 {
    open spec fn spec_primes() -> Seq<Self> {
        small_primes_i8()
    }

    open spec fn has_primes() -> bool {
        true
    }

    open spec fn spec_prime_power_decomposition(&self) -> Seq<Self> {
        prime_powers_small(abs_i8(*self), small_primes_i8())
    }

    open spec fn decomposable(&self) -> bool {
        true
    }

    fn primes() -> (v: Vec<Self>) {
        let v: Vec<i8> = vec![2, 3, 5, 7, 11, 13, 17, 19, 23, 29, 31];
        assert(v@ =~= small_primes_i8());
        v
    }

    fn prime_power_decomposition(&self) -> (d: Vec<Self>) {
        let a: u16 = if *self < 0 {
            (0i16 - *self as i16) as u16
        } else {
            *self as u16
        };
        let ps = <i8 as Factorisable>::primes();
        let mut decomposition: Vec<i8> = Vec::new();
        let mut i: usize = 0;
        while i < ps.len()
            invariant
                a == abs_i8(*self),
                ps@ == small_primes_i8(),
                i <= ps@.len(),
                decomposition@ == prime_powers_small(a as int, ps@.take(i as int)),
            decreases ps@.len() - i,
        {
            let p: u16 = ps[i] as u16;
            assert(2 <= p <= 31);
            let mut n: u16 = 1;
            assert(1 * p == p);
            while n * p <= 127 && a % (n * p) == 0
                invariant
                    2 <= p <= 31,
                    1 <= n <= 127,
                    2 <= n * p <= 127 * 31,
                    climb_small(a as int, p as int, n as int) == climb_small(a as int, p as int, 1),
                decreases 128 - n,
            {
                assert(n * p >= n + n) by (nonlinear_arith)
                    requires
                        1 <= n,
                        2 <= p,
                ;
                n = n * p;
                assert(2 <= n * p <= 127 * 31) by (nonlinear_arith)
                    requires
                        1 <= n <= 127,
                        2 <= p <= 31,
                ;
            }
            proof {
                assert(ps@.take(i + 1).drop_last() =~= ps@.take(i as int));
                assert(ps@.take(i + 1).last() == ps@[i as int]);
            }
            if n != 1 {
                decomposition.push(n as i8);
            }
            i = i + 1;
        }
        proof {
            assert(ps@.take(ps@.len() as int) =~= ps@);
        }
        decomposition
    }
}

/* # coefficients tagged with an identifier */

/// A coefficient together with the identifier that tells it apart from
/// equal coefficients.
#[derive(Clone, Debug, PartialEq, Eq)]
pub struct Coeff<T> {
    coeff: T,
    index: Rc<str>,
}

impl<T: Ranked> Coeff<T> {
    /// The coefficient.
    pub closed spec fn value(&self) -> T {
        self.coeff
    }

    /// The bytes of the identifier.
    pub closed spec fn tag(&self) -> Seq<u8> {
        self.index.spec_bytes()
    }

    pub fn new(coeff: T, index: Rc<str>) -> (c: Self)
        ensures
            c.value() == coeff,
            c.tag() == index.spec_bytes(),
    {
        Self { coeff, index }
    }

    /// The coefficient.
    pub fn coeff(&self) -> (c: T)
        ensures
            c == self.value(),
    {
        self.coeff
    }

    /// The same key, sharing the identifier.
    fn copy(&self) -> (c: Self)
        ensures
            c == *self,
            c.value() == self.value(),
            c.tag() == self.tag(),
    {
        Self { coeff: self.coeff, index: share_rc(&self.index) }
    }
}

/// Keys are ordered by coefficient, larger first, and among equal
/// coefficients by identifier, larger first: `a` comes before `b`.
pub open spec fn key_before<T: Ranked>(a: Coeff<T>, b: Coeff<T>) -> bool {
    ||| a.value().rank() > b.value().rank()
    ||| a.value().rank() == b.value().rank() && bytes_lt(b.tag(), a.tag())
}

/// Two keys with the same coefficient and the same identifier.
pub open spec fn same_key<T: Ranked>(a: Coeff<T>, b: Coeff<T>) -> bool {
    a.value().rank() == b.value().rank() && a.tag() == b.tag()
}

/// Every key comes before the ones after it.
pub open spec fn keys_sorted<T: Ranked>(ks: Seq<Coeff<T>>) -> bool {
    forall|i: int, j: int| 0 <= i < j < ks.len() ==> key_before(#[trigger] ks[i], #[trigger] ks[j])
}

pub open spec fn has_key<T: Ranked>(ks: Seq<Coeff<T>>, k: Coeff<T>) -> bool {
    exists|i: int| 0 <= i < ks.len() && same_key(#[trigger] ks[i], k)
}

/// The position of a key equal to `k`, when there is one.
pub open spec fn key_position<T: Ranked>(ks: Seq<Coeff<T>>, k: Coeff<T>) -> int {
    choose|i: int| 0 <= i < ks.len() && same_key(#[trigger] ks[i], k)
}

/// Of two keys, exactly one comes first, or they are the same.
pub proof fn lemma_key_trichotomy<T: Ranked>(a: Coeff<T>, b: Coeff<T>)
    ensures
        key_before(a, b) || same_key(a, b) || key_before(b, a),
        !(key_before(a, b) && same_key(a, b)),
        !(key_before(b, a) && same_key(a, b)),
        !(key_before(a, b) && key_before(b, a)),
{
    lemma_bytes_lt_total(a.tag(), b.tag());
    lemma_bytes_lt_irreflexive(a.tag());
    lemma_bytes_lt_asymmetric(a.tag(), b.tag());
}

pub proof fn lemma_key_transitive<T: Ranked>(a: Coeff<T>, b: Coeff<T>, c: Coeff<T>)
    requires
        key_before(a, b),
        key_before(b, c),
    ensures
        key_before(a, c),
{
    if a.value().rank() == b.value().rank() && b.value().rank() == c.value().rank() {
        lemma_bytes_lt_transitive(c.tag(), b.tag(), a.tag());
    }
}

/// Three-way comparison of keys: -1, 0 or 1 as `a` comes before `b`, is the
/// same key, or comes after.
fn compare_keys<T: Ranked>(a: &Coeff<T>, b: &Coeff<T>) -> (c: i8)
    ensures
        c == -1 <==> key_before(*a, *b),
        c == 0 <==> same_key(*a, *b),
        c == 1 <==> key_before(*b, *a),
{
    proof {
        lemma_key_trichotomy(*a, *b);
    }
    if b.coeff.rank_lt(&a.coeff) {
        -1
    } else if a.coeff.rank_lt(&b.coeff) {
        1
    } else {
        let x: &str = &a.index;
        let y: &str = &b.index;
        let t = compare_strs(x, y);
        if t == -1 {
            1
        } else if t == 0 {
            0
        } else {
            -1
        }
    }
}

/// The first position whose key does not come before `k`.
fn search<T: Ranked>(ks: &Vec<Coeff<T>>, k: &Coeff<T>) -> (j: usize)
    requires
        keys_sorted(ks@),
    ensures
        j <= ks@.len(),
        forall|i: int| 0 <= i < j ==> key_before(#[trigger] ks@[i], *k),
        forall|i: int| j <= i < ks@.len() ==> !key_before(#[trigger] ks@[i], *k),
        has_key(ks@, *k) <==> (j < ks@.len() && same_key(ks@[j as int], *k)),
        has_key(ks@, *k) ==> key_position(ks@, *k) == j,
{
    let mut j: usize = 0;
    while j < ks.len() && compare_keys(&ks[j], k) == -1
        invariant
            j <= ks@.len(),
            forall|i: int| 0 <= i < j ==> key_before(#[trigger] ks@[i], *k),
        decreases ks@.len() - j,
    {
        j = j + 1;
    }
    proof {
        assert forall|i: int| j <= i < ks@.len() implies !key_before(#[trigger] ks@[i], *k) by {
            if i > j && key_before(ks@[i], *k) {
                lemma_key_transitive(ks@[j as int], ks@[i], *k);
            }
        }
        if has_key(ks@, *k) {
            let i = choose|i: int| 0 <= i < ks@.len() && same_key(#[trigger] ks@[i], *k);
            lemma_key_trichotomy(ks@[i], *k);
            if i > j {
                lemma_key_trichotomy(ks@[j as int], *k);
                assert(key_before(ks@[j as int], ks@[i]));
            }
            assert(i == j);
            let q = key_position(ks@, *k);
            lemma_key_trichotomy(ks@[q], *k);
            if q > j {
                assert(key_before(ks@[j as int], ks@[q]));
            }
            if q < j {
                assert(key_before(ks@[q], *k));
            }
        }
    }
    j
}

/* # trees of coefficients */

/// A sorted list of keys, each with a value: the keys in the order of
/// `key_before`, with no key twice.
#[derive(Clone, Debug, PartialEq, Eq)]
pub struct CoeffTree<T, V> {
    keys: Vec<Coeff<T>>,
    values: Vec<V>,
}

/// `t` is what `combine` gives for `s`, `o` and `action`: its keys are the
/// keys of `s` that `o` holds too, in order, and each value is a result of
/// `action` on the two values and the coefficient of that key.
pub open spec fn combined<T: Ranked, V, U, W, F: Fn(V, U, T) -> W>(s: CoeffTree<T, V>, o: CoeffTree<T, U>, action: F, t: CoeffTree<T, W>) -> bool {
    &&& t.wf()
    &&& t.key_seq() == keys_at(s.key_seq(), common_positions(s.key_seq(), o.key_seq()))
    &&& forall|j: int|
        0 <= j < t.key_seq().len() ==> {
            let i = common_positions(s.key_seq(), o.key_seq())[j];
            call_ensures(
                action,
                (s.value_seq()[i], o.value_seq()[key_position(o.key_seq(), s.key_seq()[i])], s.key_seq()[i].value()),
                #[trigger] t.value_seq()[j],
            )
        }
}

/// `t` is what `combine_ref` gives for `s`, `o` and `action`, which reads
/// the two values by reference.
pub open spec fn combined_ref<T: Ranked, V, U, W, F: Fn(&V, &U, T) -> W>(s: CoeffTree<T, V>, o: CoeffTree<T, U>, action: F, t: CoeffTree<T, W>) -> bool {
    &&& t.wf()
    &&& t.key_seq() == keys_at(s.key_seq(), common_positions(s.key_seq(), o.key_seq()))
    &&& forall|j: int|
        0 <= j < t.key_seq().len() ==> {
            let i = common_positions(s.key_seq(), o.key_seq())[j];
            call_ensures(
                action,
                (&s.value_seq()[i], &o.value_seq()[key_position(o.key_seq(), s.key_seq()[i])], s.key_seq()[i].value()),
                #[trigger] t.value_seq()[j],
            )
        }
}

impl<T: Ranked, V> CoeffTree<T, V> {
    /// The keys, in order.
    pub closed spec fn key_seq(&self) -> Seq<Coeff<T>> {
        self.keys@
    }

    /// The values, in the order of their keys.
    pub closed spec fn value_seq(&self) -> Seq<V> {
        self.values@
    }

    /// One value per key, and the keys sorted.
    pub open spec fn wf(&self) -> bool {
        &&& self.key_seq().len() == self.value_seq().len()
        &&& keys_sorted(self.key_seq())
    }

    /// The tree with no keys.
    pub fn new() -> (t: Self)
        ensures
            t.wf(),
            t.key_seq().len() == 0,
    {
        Self { keys: Vec::new(), values: Vec::new() }
    }

    pub fn len(&self) -> (n: usize)
        ensures
            n == self.key_seq().len(),
    {
        self.keys.len()
    }

    /// The value of `key`, if the tree holds it.
    pub fn get(&self, key: &Coeff<T>) -> (r: Option<&V>)
        requires
            self.wf(),
        ensures
            has_key(self.key_seq(), *key) ==> r == Some(&self.value_seq()[key_position(self.key_seq(), *key)]),
            !has_key(self.key_seq(), *key) ==> r is None,
    {
        let j = search(&self.keys, key);
        if j < self.keys.len() && compare_keys(&self.keys[j], key) == 0 {
            Some(&self.values[j])
        } else {
            None
        }
    }

    /// The value of `key`, to change in place, if the tree holds it.
    pub fn get_mut(&mut self, key: &Coeff<T>) -> (r: Option<&mut V>)
        requires
            old(self).wf(),
        ensures
            final(self).key_seq() == old(self).key_seq(),
            has_key(old(self).key_seq(), *key) ==> r is Some && *r->0 == old(self).value_seq()[key_position(old(self).key_seq(), *key)]
                && final(self).value_seq() == old(self).value_seq().update(key_position(old(self).key_seq(), *key), *final(r->0)),
            !has_key(old(self).key_seq(), *key) ==> r is None && final(self).value_seq() == old(self).value_seq(),
    {
        let j = search(&self.keys, key);
        if j < self.keys.len() && compare_keys(&self.keys[j], key) == 0 {
            Some(&mut self.values[j])
        } else {
            None
        }
    }

    /// Sets the value of `key` when the tree holds it; `None` otherwise.
    pub fn replace(&mut self, key: &Coeff<T>, value: V) -> (r: Option<()>)
        requires
            old(self).wf(),
        ensures
            final(self).wf(),
            final(self).key_seq() == old(self).key_seq(),
            has_key(old(self).key_seq(), *key) ==> r is Some && final(self).value_seq() == old(self).value_seq().update(
                key_position(old(self).key_seq(), *key),
                value,
            ),
            !has_key(old(self).key_seq(), *key) ==> r is None && final(self).value_seq() == old(self).value_seq(),
    {
        let j = search(&self.keys, key);
        if j < self.keys.len() && compare_keys(&self.keys[j], key) == 0 {
            self.values.set(j, value);
            Some(())
        } else {
            None
        }
    }

    /// The position of `key` among the keys, if the tree holds it.
    pub(crate) fn position_of(&self, key: &Coeff<T>) -> (r: Option<usize>)
        requires
            self.wf(),
        ensures
            has_key(self.key_seq(), *key) ==> r == Some(key_position(self.key_seq(), *key) as usize),
            !has_key(self.key_seq(), *key) ==> r is None,
    {
        let j = search(&self.keys, key);
        if j < self.keys.len() && compare_keys(&self.keys[j], key) == 0 {
            Some(j)
        } else {
            None
        }
    }

    pub fn contains_key(&self, key: &Coeff<T>) -> (b: bool)
        requires
            self.wf(),
        ensures
            b == has_key(self.key_seq(), *key),
    {
        let j = search(&self.keys, key);
        j < self.keys.len() && compare_keys(&self.keys[j], key) == 0
    }

    /// Whether the keys agree position by position, as far as both trees go.
    pub fn has_same_keys<W>(&self, other: &CoeffTree<T, W>) -> (b: bool)
        ensures
            b == forall|i: int|
                0 <= i < self.key_seq().len() && 0 <= i < other.key_seq().len() ==> same_key(
                    #[trigger] self.key_seq()[i],
                    other.key_seq()[i],
                ),
    {
        let mut i: usize = 0;
        while i < self.keys.len() && i < other.keys.len()
            invariant
                i <= self.key_seq().len(),
                i <= other.key_seq().len(),
                forall|k: int| 0 <= k < i ==> same_key(#[trigger] self.key_seq()[k], other.key_seq()[k]),
            decreases self.key_seq().len() - i,
        {
            if compare_keys(&self.keys[i], &other.keys[i]) != 0 {
                return false;
            }
            i = i + 1;
        }
        true
    }

    /* ## the keys and values */

    /// The keys with their values, in order.
    pub fn iter(&self) -> (r: Vec<(&Coeff<T>, &V)>)
        requires
            self.wf(),
        ensures
            r@.len() == self.key_seq().len(),
            forall|i: int| 0 <= i < r@.len() ==> #[trigger] r@[i] == (&self.key_seq()[i], &self.value_seq()[i]),
    {
        let mut r: Vec<(&Coeff<T>, &V)> = Vec::new();
        let mut i: usize = 0;
        while i < self.keys.len()
            invariant
                self.wf(),
                i <= self.key_seq().len(),
                r@.len() == i,
                forall|k: int| 0 <= k < i ==> #[trigger] r@[k] == (&self.key_seq()[k], &self.value_seq()[k]),
            decreases self.key_seq().len() - i,
        {
            r.push((&self.keys[i], &self.values[i]));
            i = i + 1;
        }
        r
    }

    /// The keys, and the values to change in place; the keys stay as they are.
    pub fn iter_mut(&mut self) -> (r: (&[Coeff<T>], &mut [V]))
        ensures
            r.0@ == old(self).key_seq(),
            r.1@ == old(self).value_seq(),
            final(self).key_seq() == old(self).key_seq(),
            final(self).value_seq() == final(r.1)@,
    {
        (self.keys.as_slice(), self.values.as_mut_slice())
    }

    /// The keys, in order.
    pub fn keys(&self) -> (r: &[Coeff<T>])
        ensures
            r@ == self.key_seq(),
    {
        self.keys.as_slice()
    }

    /// The values, in the order of their keys.
    pub fn values(&self) -> (r: &[V])
        ensures
            r@ == self.value_seq(),
    {
        self.values.as_slice()
    }

    /// The values, to change in place; the keys stay as they are.
    pub fn values_mut(&mut self) -> (r: &mut [V])
        ensures
            r@ == old(self).value_seq(),
            final(self).key_seq() == old(self).key_seq(),
            final(self).value_seq() == final(r)@,
    {
        self.values.as_mut_slice()
    }

    /// The keys of this tree, each with the value at its position in
    /// `values`.
    pub(crate) fn with_values<W>(&self, values: Vec<W>) -> (t: CoeffTree<T, W>)
        requires
            self.wf(),
            values@.len() == self.key_seq().len(),
        ensures
            t.wf(),
            t.key_seq() == self.key_seq(),
            t.value_seq() == values@,
    {
        let mut keys: Vec<Coeff<T>> = Vec::new();
        let mut i: usize = 0;
        while i < self.keys.len()
            invariant
                i <= self.key_seq().len(),
                keys@ == self.key_seq().take(i as int),
            decreases self.key_seq().len() - i,
        {
            keys.push(self.keys[i].copy());
            proof {
                assert(self.key_seq().take(i + 1) =~= self.key_seq().take(i as int).push(self.key_seq()[i as int]));
            }
            i = i + 1;
        }
        proof {
            assert(self.key_seq().take(i as int) =~= self.key_seq());
        }
        CoeffTree { keys, values }
    }

    /// The coefficients of the keys, in order.
    pub fn coeffs(&self) -> (r: Vec<T>)
        ensures
            r@ == self.key_seq().map_values(|k: Coeff<T>| k.value()),
            self.wf() ==> forall|i: int, j: int| 0 <= i < j < r@.len() ==> (#[trigger] r@[i]).rank() >= (#[trigger] r@[j]).rank(),
    {
        let mut r: Vec<T> = Vec::new();
        let mut i: usize = 0;
        while i < self.keys.len()
            invariant
                i <= self.key_seq().len(),
                r@ == self.key_seq().take(i as int).map_values(|k: Coeff<T>| k.value()),
            decreases self.key_seq().len() - i,
        {
            r.push(self.keys[i].coeff());
            proof {
                assert(self.key_seq().take(i + 1).map_values(|k: Coeff<T>| k.value()) =~= r@);
            }
            i = i + 1;
        }
        proof {
            assert(self.key_seq().take(i as int) =~= self.key_seq());
        }
        proof {
            if self.wf() {
                assert forall|a: int, b: int| 0 <= a < b < r@.len() implies (#[trigger] r@[a]).rank() >= (#[trigger] r@[b]).rank() by {
                    assert(key_before(self.key_seq()[a], self.key_seq()[b]));
                }
            }
        }
        r
    }

    pub fn into_keys(self) -> (r: Vec<Coeff<T>>)
        ensures
            r@ == self.key_seq(),
    {
        self.keys
    }

    pub fn into_values(self) -> (r: Vec<V>)
        ensures
            r@ == self.value_seq(),
    {
        self.values
    }

    /// The keys with their values, in order, taken out of the tree.
    pub fn into_iter(self) -> (r: Vec<(Coeff<T>, V)>)
        requires
            self.wf(),
        ensures
            r@.len() == self.key_seq().len(),
            forall|i: int| 0 <= i < r@.len() ==> #[trigger] r@[i] == (self.key_seq()[i], self.value_seq()[i]),
    {
        let ghost ks = self.keys@;
        let ghost vs = self.values@;
        let mut keys = self.keys;
        let mut values = self.values;
        let mut rev: Vec<(Coeff<T>, V)> = Vec::new();
        while keys.len() > 0
            invariant
                keys@.len() == values@.len(),
                ks.len() == vs.len(),
                keys@ == ks.take(keys@.len() as int),
                values@ == vs.take(values@.len() as int),
                rev@.len() + keys@.len() == ks.len(),
                forall|i: int| 0 <= i < rev@.len() ==> #[trigger] rev@[i] == (ks[ks.len() - 1 - i], vs[vs.len() - 1 - i]),
            decreases keys@.len(),
        {
            let k = keys.pop().unwrap();
            let v = values.pop().unwrap();
            rev.push((k, v));
        }
        let mut r: Vec<(Coeff<T>, V)> = Vec::new();
        while rev.len() > 0
            invariant
                ks.len() == vs.len(),
                rev@.len() + r@.len() == ks.len(),
                forall|i: int| 0 <= i < rev@.len() ==> #[trigger] rev@[i] == (ks[ks.len() - 1 - i], vs[vs.len() - 1 - i]),
                forall|i: int| 0 <= i < r@.len() ==> #[trigger] r@[i] == (ks[i], vs[i]),
            decreases rev@.len(),
        {
            let e = rev.pop().unwrap();
            r.push(e);
        }
        r
    }
}

/// The number of keys of `ks` that come before `k`; in a sorted list, the
/// place where `k` goes.
pub open spec fn count_before<T: Ranked>(ks: Seq<Coeff<T>>, k: Coeff<T>) -> int
    decreases ks.len(),
{
    if ks.len() == 0 {
        0
    } else {
        count_before(ks.drop_last(), k) + if key_before(ks.last(), k) { 1int } else { 0int }
    }
}

/// The keys after `put`ting `k`: unchanged when `k` is there, else `k` at its place.
pub open spec fn put_key<T: Ranked>(ks: Seq<Coeff<T>>, k: Coeff<T>) -> Seq<Coeff<T>> {
    if has_key(ks, k) {
        ks
    } else {
        ks.insert(count_before(ks, k), k)
    }
}

/// The values after `put`ting `v` under `k`.
pub open spec fn put_value<T: Ranked, V>(ks: Seq<Coeff<T>>, vs: Seq<V>, k: Coeff<T>, v: V) -> Seq<V> {
    if has_key(ks, k) {
        vs.update(key_position(ks, k), v)
    } else {
        vs.insert(count_before(ks, k), v)
    }
}

/// The keys before position `j` come before `k` and the others do not:
/// then `j` counts the keys before `k`.
proof fn lemma_count_before<T: Ranked>(ks: Seq<Coeff<T>>, k: Coeff<T>, j: int)
    requires
        0 <= j <= ks.len(),
        forall|i: int| 0 <= i < j ==> key_before(#[trigger] ks[i], k),
        forall|i: int| j <= i < ks.len() ==> !key_before(#[trigger] ks[i], k),
    ensures
        count_before(ks, k) == j,
    decreases ks.len(),
{
    if ks.len() > 0 {
        let d = ks.drop_last();
        if j == ks.len() {
            lemma_count_before(d, k, j - 1);
        } else {
            lemma_count_before(d, k, j);
        }
    }
}

impl<T: Ranked, V> CoeffTree<T, V> {
    /// Puts `value` under `key`: when the tree holds the key, only its value
    /// changes; otherwise the key goes to its place with the value.
    pub(crate) fn put(&mut self, key: Coeff<T>, value: V)
        requires
            old(self).wf(),
        ensures
            final(self).wf(),
            final(self).key_seq() == put_key(old(self).key_seq(), key),
            final(self).value_seq() == put_value(old(self).key_seq(), old(self).value_seq(), key, value),
    {
        let ghost ks = self.keys@;
        let j = search(&self.keys, &key);
        proof {
            lemma_count_before(ks, key, j as int);
        }
        if j < self.keys.len() && compare_keys(&self.keys[j], &key) == 0 {
            self.values.set(j, value);
        } else {
            self.keys.insert(j, key);
            self.values.insert(j, value);
            proof {
                lemma_put_key_new(ks, key);
            }
        }
    }
}

/// The positions of the keys of `ks` that `os` holds too, in order.
pub open spec fn common_positions<T: Ranked>(ks: Seq<Coeff<T>>, os: Seq<Coeff<T>>) -> Seq<int>
    decreases ks.len(),
{
    if ks.len() == 0 {
        Seq::empty()
    } else {
        let rest = common_positions(ks.drop_last(), os);
        if has_key(os, ks.last()) {
            rest.push(ks.len() - 1)
        } else {
            rest
        }
    }
}

proof fn lemma_common_positions<T: Ranked>(ks: Seq<Coeff<T>>, os: Seq<Coeff<T>>)
    ensures
        forall|j: int| 0 <= j < common_positions(ks, os).len() ==> {
            &&& 0 <= #[trigger] common_positions(ks, os)[j] < ks.len()
            &&& has_key(os, ks[common_positions(ks, os)[j]])
        },
        forall|a: int, b: int|
            0 <= a < b < common_positions(ks, os).len() ==> #[trigger] common_positions(ks, os)[a]
                < #[trigger] common_positions(ks, os)[b],
    decreases ks.len(),
{
    if ks.len() > 0 {
        let d = ks.drop_last();
        lemma_common_positions(d, os);
        let rest = common_positions(d, os);
        let cp = common_positions(ks, os);
        assert forall|j: int| 0 <= j < rest.len() implies 0 <= #[trigger] rest[j] < ks.len() - 1 && has_key(os, ks[rest[j]]) by {
            assert(d[rest[j]] == ks[rest[j]]);
        }
        if has_key(os, ks.last()) {
            assert(cp == rest.push(ks.len() - 1));
        } else {
            assert(cp == rest);
        }
        assert forall|j: int| 0 <= j < cp.len() implies {
            &&& 0 <= #[trigger] cp[j] < ks.len()
            &&& has_key(os, ks[cp[j]])
        } by {
            if j < rest.len() {
                assert(cp[j] == rest[j]);
            }
        }
        assert forall|a: int, b: int| 0 <= a < b < cp.len() implies #[trigger] cp[a] < #[trigger] cp[b] by {
            assert(cp[a] == rest[a]);
            if b < rest.len() {
                assert(cp[b] == rest[b]);
            }
        }
    }
}

/// The keys of `ks` at the given positions.
pub open spec fn keys_at<T: Ranked>(ks: Seq<Coeff<T>>, ps: Seq<int>) -> Seq<Coeff<T>> {
    ps.map_values(|i: int| ks[i])
}

impl<T: Ranked, V> CoeffTree<T, V> {
    /* ## operations */

    /// Applies `action` to every value and the coefficient of its key.
    pub fn map<W, F: Fn(V, T) -> W>(self, action: F) -> (t: CoeffTree<T, W>)
        requires
            self.wf(),
            forall|i: int|
                0 <= i < self.key_seq().len() ==> call_requires(
                    action,
                    (#[trigger] self.value_seq()[i], self.key_seq()[i].value()),
                ),
        ensures
            t.wf(),
            t.key_seq() == self.key_seq(),
            forall|i: int|
                0 <= i < t.key_seq().len() ==> call_ensures(
                    action,
                    (self.value_seq()[i], self.key_seq()[i].value()),
                    #[trigger] t.value_seq()[i],
                ),
    {
        let ghost ks = self.keys@;
        let ghost vs = self.values@;
        let keys = self.keys;
        let mut values = self.values;
        let mut rev: Vec<V> = Vec::new();
        while values.len() > 0
            invariant
                ks.len() == vs.len(),
                values@ == vs.take(values@.len() as int),
                rev@.len() + values@.len() == vs.len(),
                forall|i: int| 0 <= i < rev@.len() ==> #[trigger] rev@[i] == vs[vs.len() - 1 - i],
            decreases values@.len(),
        {
            let v = values.pop().unwrap();
            rev.push(v);
        }
        let mut out: Vec<W> = Vec::new();
        while rev.len() > 0
            invariant
                keys@ == ks,
                ks.len() == vs.len(),
                rev@.len() + out@.len() == vs.len(),
                forall|i: int| 0 <= i < rev@.len() ==> #[trigger] rev@[i] == vs[vs.len() - 1 - i],
                forall|i: int| 0 <= i < ks.len() ==> call_requires(action, (#[trigger] vs[i], ks[i].value())),
                forall|i: int| 0 <= i < out@.len() ==> call_ensures(action, (vs[i], ks[i].value()), #[trigger] out@[i]),
            decreases rev@.len(),
        {
            let v = rev.pop().unwrap();
            let i = out.len();
            let c = keys[i].coeff();
            let w = action(v, c);
            out.push(w);
        }
        CoeffTree { keys, values: out }
    }

    /// Applies `action` to every value and the coefficient of its key,
    /// leaving this tree as it is.
    pub fn map_ref<W, F: Fn(&V, T) -> W>(&self, action: F) -> (t: CoeffTree<T, W>)
        requires
            self.wf(),
            forall|i: int|
                0 <= i < self.key_seq().len() ==> call_requires(
                    action,
                    (&#[trigger] self.value_seq()[i], self.key_seq()[i].value()),
                ),
        ensures
            t.wf(),
            t.key_seq() == self.key_seq(),
            forall|i: int|
                0 <= i < t.key_seq().len() ==> call_ensures(
                    action,
                    (&self.value_seq()[i], self.key_seq()[i].value()),
                    #[trigger] t.value_seq()[i],
                ),
    {
        let mut keys: Vec<Coeff<T>> = Vec::new();
        let mut values: Vec<W> = Vec::new();
        let mut i: usize = 0;
        while i < self.keys.len()
            invariant
                self.wf(),
                i <= self.key_seq().len(),
                keys@ == self.key_seq().take(i as int),
                values@.len() == i,
                forall|k: int|
                    0 <= k < self.key_seq().len() ==> call_requires(
                        action,
                        (&#[trigger] self.value_seq()[k], self.key_seq()[k].value()),
                    ),
                forall|k: int|
                    0 <= k < i ==> call_ensures(
                        action,
                        (&self.value_seq()[k], self.key_seq()[k].value()),
                        #[trigger] values@[k],
                    ),
            decreases self.key_seq().len() - i,
        {
            let key = self.keys[i].copy();
            let w = action(&self.values[i], key.coeff());
            keys.push(key);
            values.push(w);
            proof {
                assert(self.key_seq().take(i + 1) =~= self.key_seq().take(i as int).push(self.key_seq()[i as int]));
            }
            i = i + 1;
        }
        proof {
            assert(self.key_seq().take(i as int) =~= self.key_seq());
        }
        CoeffTree { keys, values }
    }

    /// Applies `action` to every value in place, with the coefficient of its
    /// key. The keys stay as they are; each value becomes what `action` makes
    /// of it: at every position, the key is still a key of the tree, and
    /// `action`, called on a reference to the old value with that key's
    /// coefficient, may leave the new value behind.
    #[verifier::spinoff_prover]
    pub fn map_mut<F: Fn(&mut V, T)>(&mut self, action: F)
        requires
            old(self).wf(),
            forall|r: &mut V, t: T| #[trigger] call_requires(action, (r, t)),
        ensures
            final(self).wf(),
            final(self).key_seq() == old(self).key_seq(),
            forall|i: int|
                0 <= i < old(self).key_seq().len() ==> has_key(final(self).key_seq(), #[trigger] old(self).key_seq()[i])
                    && exists|r: &mut V|
                    #[trigger] call_ensures(action, (r, old(self).key_seq()[i].value()), ()) && *r == old(self).value_seq()[i]
                        && *final(r) == final(self).value_seq()[i],
    {
        let ghost ks = self.keys@;
        let ghost vs = self.values@;
        let mut i: usize = 0;
        while i < self.keys.len()
            invariant
                self.wf(),
                self.key_seq() == ks,
                ks.len() == vs.len(),
                i <= ks.len(),
                forall|r: &mut V, t: T| #[trigger] call_requires(action, (r, t)),
                forall|k: int| i <= k < vs.len() ==> #[trigger] self.value_seq()[k] == vs[k],
                forall|k: int|
                    0 <= k < i ==> #[trigger] self.key_seq()[k] == ks[k] && exists|r: &mut V|
                        #[trigger] call_ensures(action, (r, ks[k].value()), ()) && *r == vs[k] && *final(r)
                            == self.value_seq()[k],
            decreases ks.len() - i,
        {
            let c = self.keys[i].coeff();
            let ghost before = self.values@;
            let ghost j = i as int;
            let vi = &mut self.values[i];
            assert(*vi == vs[j]);
            action(vi, c);
            proof {
                assert(self.values@ == before.update(j, self.values@[j]));
                assert(exists|r: &mut V|
                    #[trigger] call_ensures(action, (r, ks[j].value()), ()) && *r == vs[j] && *final(r)
                        == self.value_seq()[j]);
            }
            i = i + 1;
            proof {
                assert forall|k: int| 0 <= k < i implies #[trigger] self.key_seq()[k] == ks[k] && exists|r: &mut V|
                        #[trigger] call_ensures(action, (r, ks[k].value()), ()) && *r == vs[k] && *final(r)
                            == self.value_seq()[k] by {
                    if k < j {
                        assert(self.value_seq()[k] == before[k]);
                    } else {
                        assert(k == j);
                    }
                }
            }
        }
        proof {
            assert forall|k: int| 0 <= k < old(self).key_seq().len() implies self.key_seq()[k] == #[trigger] old(self).key_seq()[k]
                && exists|r: &mut V|
                #[trigger] call_ensures(action, (r, old(self).key_seq()[k].value()), ()) && *r == old(self).value_seq()[k]
                    && *final(r) == self.value_seq()[k] by {
                assert(self.key_seq()[k] == ks[k]);
            }
        }
    }

    /// The values, in order, moved out of the tree, last one first.
    fn values_reversed(values: Vec<V>) -> (rev: Vec<V>)
        ensures
            rev@.len() == values@.len(),
            forall|i: int| 0 <= i < rev@.len() ==> #[trigger] rev@[i] == values@[values@.len() - 1 - i],
    {
        let ghost vs = values@;
        let mut values = values;
        let mut rev: Vec<V> = Vec::new();
        while values.len() > 0
            invariant
                values@ == vs.take(values@.len() as int),
                rev@.len() + values@.len() == vs.len(),
                forall|i: int| 0 <= i < rev@.len() ==> #[trigger] rev@[i] == vs[vs.len() - 1 - i],
            decreases values@.len(),
        {
            let v = values.pop().unwrap();
            rev.push(v);
        }
        rev
    }

    /// Like `combine_ref`, taking both trees: for every key that both trees
    /// hold, in order, the result of `action` on the two values and the
    /// coefficient; keys that only one tree holds are left out.
    pub fn combine<U, W, F: Fn(V, U, T) -> W>(self, other: CoeffTree<T, U>, action: F) -> (t: CoeffTree<T, W>)
        requires
            self.wf(),
            other.wf(),
            forall|i: int|
                0 <= i < self.key_seq().len() && has_key(other.key_seq(), #[trigger] self.key_seq()[i]) ==> call_requires(
                    action,
                    (
                        self.value_seq()[i],
                        other.value_seq()[key_position(other.key_seq(), self.key_seq()[i])],
                        self.key_seq()[i].value(),
                    ),
                ),
        ensures
            combined(self, other, action, t),
    {
        let ghost ks = self.keys@;
        let ghost vs = self.values@;
        let ghost os = other.keys@;
        let ghost us = other.values@;
        let self_keys = self.keys;
        let other_keys = other.keys;
        let mut rev = Self::values_reversed(self.values);
        let mut other_rev = CoeffTree::<T, U>::values_reversed(other.values);
        let mut slots: Vec<Option<U>> = Vec::new();
        while other_rev.len() > 0
            invariant
                us.len() == os.len(),
                other_rev@.len() + slots@.len() == us.len(),
                forall|i: int| 0 <= i < other_rev@.len() ==> #[trigger] other_rev@[i] == us[us.len() - 1 - i],
                forall|i: int| 0 <= i < slots@.len() ==> #[trigger] slots@[i] == Some(us[i]),
            decreases other_rev@.len(),
        {
            let u = other_rev.pop().unwrap();
            slots.push(Some(u));
        }
        let mut keys: Vec<Coeff<T>> = Vec::new();
        let mut values: Vec<W> = Vec::new();
        let mut i: usize = 0;
        while i < self_keys.len()
            invariant
                self_keys@ == ks,
                other_keys@ == os,
                ks.len() == vs.len(),
                os.len() == us.len(),
                keys_sorted(ks),
                keys_sorted(os),
                i <= ks.len(),
                rev@.len() + i == vs.len(),
                forall|k: int| 0 <= k < rev@.len() ==> #[trigger] rev@[k] == vs[vs.len() - 1 - k],
                slots@.len() == us.len(),
                forall|k: int| 0 <= k < slots@.len() && (#[trigger] slots@[k]) is Some ==> slots@[k] == Some(us[k]),
                forall|k: int|
                    i <= k < ks.len() && has_key(os, #[trigger] ks[k]) ==> slots@[key_position(os, ks[k])] is Some,
                keys@ == keys_at(ks, common_positions(ks.take(i as int), os)),
                values@.len() == keys@.len(),
                forall|k: int|
                    0 <= k < ks.len() && has_key(os, #[trigger] ks[k]) ==> call_requires(
                        action,
                        (vs[k], us[key_position(os, ks[k])], ks[k].value()),
                    ),
                forall|j: int|
                    0 <= j < values@.len() ==> {
                        let k = common_positions(ks.take(i as int), os)[j];
                        call_ensures(action, (vs[k], us[key_position(os, ks[k])], ks[k].value()), #[trigger] values@[j])
                    },
            decreases ks.len() - i,
        {
            proof {
                assert(ks.take(i + 1).drop_last() =~= ks.take(i as int));
                lemma_common_positions(ks.take(i as int), os);
            }
            let v = rev.pop().unwrap();
            let j = search(&other_keys, &self_keys[i]);
            if j < other_keys.len() && compare_keys(&other_keys[j], &self_keys[i]) == 0 {
                let ghost p = key_position(os, ks[i as int]);
                assert(p == j);
                let u_slot = slots[j].take();
                proof {
                    assert forall|k: int|
                        i + 1 <= k < ks.len() && has_key(os, #[trigger] ks[k]) implies slots@[key_position(os, ks[k])] is Some by {
                        let q = key_position(os, ks[k]);
                        if q == j {
                            assert(key_before(ks[i as int], ks[k]));
                            lemma_key_trichotomy(ks[i as int], ks[k]);
                        }
                    }
                }
                match u_slot {
                    Some(u) => {
                        let key = self_keys[i].copy();
                        let w = action(v, u, key.coeff());
                        keys.push(key);
                        values.push(w);
                        proof {
                            assert(keys@ =~= keys_at(ks, common_positions(ks.take(i + 1), os)));
                        }
                    },
                    None => {
                    },
                }
            }
            i = i + 1;
        }
        proof {
            assert(ks.take(i as int) =~= ks);
            lemma_common_positions(ks, os);
            let cp = common_positions(ks, os);
            assert forall|a: int, b: int| 0 <= a < b < keys@.len() implies key_before(#[trigger] keys@[a], #[trigger] keys@[b]) by {
                assert(cp[a] < cp[b]);
            }
        }
        CoeffTree { keys, values }
    }

    /// For every key that both trees hold, in order, the result of `action`
    /// on the two values and the coefficient; keys that only one tree holds
    /// are left out.
    pub fn combine_ref<U, W, F: Fn(&V, &U, T) -> W>(&self, other: &CoeffTree<T, U>, action: F) -> (t: CoeffTree<T, W>)
        requires
            self.wf(),
            other.wf(),
            forall|i: int|
                0 <= i < self.key_seq().len() && has_key(other.key_seq(), #[trigger] self.key_seq()[i]) ==> call_requires(
                    action,
                    (
                        &self.value_seq()[i],
                        &other.value_seq()[key_position(other.key_seq(), self.key_seq()[i])],
                        self.key_seq()[i].value(),
                    ),
                ),
        ensures
            combined_ref(*self, *other, action, t),
    {
        let ghost ks = self.keys@;
        let ghost os = other.keys@;
        let mut keys: Vec<Coeff<T>> = Vec::new();
        let mut values: Vec<W> = Vec::new();
        let mut i: usize = 0;
        while i < self.keys.len()
            invariant
                self.wf(),
                other.wf(),
                ks == self.key_seq(),
                os == other.key_seq(),
                i <= ks.len(),
                keys@ == keys_at(ks, common_positions(ks.take(i as int), os)),
                values@.len() == keys@.len(),
                forall|k: int|
                    0 <= k < ks.len() && has_key(os, #[trigger] ks[k]) ==> call_requires(
                        action,
                        (&self.value_seq()[k], &other.value_seq()[key_position(os, ks[k])], ks[k].value()),
                    ),
                forall|j: int|
                    0 <= j < values@.len() ==> {
                        let k = common_positions(ks.take(i as int), os)[j];
                        call_ensures(
                            action,
                            (&self.value_seq()[k], &other.value_seq()[key_position(os, ks[k])], ks[k].value()),
                            #[trigger] values@[j],
                        )
                    },
            decreases ks.len() - i,
        {
            proof {
                assert(ks.take(i + 1).drop_last() =~= ks.take(i as int));
                lemma_common_positions(ks.take(i as int), os);
            }
            match other.get(&self.keys[i]) {
                Some(u) => {
                    let key = self.keys[i].copy();
                    let w = action(&self.values[i], u, key.coeff());
                    keys.push(key);
                    values.push(w);
                    proof {
                        assert(keys@ =~= keys_at(ks, common_positions(ks.take(i + 1), os)));
                    }
                },
                None => {
                },
            }
            i = i + 1;
        }
        proof {
            assert(ks.take(i as int) =~= ks);
            lemma_common_positions(ks, os);
            let cp = common_positions(ks, os);
            assert forall|a: int, b: int| 0 <= a < b < keys@.len() implies key_before(#[trigger] keys@[a], #[trigger] keys@[b]) by {
                assert(cp[a] < cp[b]);
            }
        }
        CoeffTree { keys, values }
    }
}

/// The keys of `ks` at the positions `start`, `start + 2`, `start + 4`, ...
pub open spec fn alternate<T>(ks: Seq<T>, start: int) -> Seq<T> {
    Seq::new(((ks.len() - start + 1) / 2) as nat, |i: int| ks[start + 2 * i])
}

/// The keys after `put`ting the keys of `os`, in order.
pub open spec fn put_all<T: Ranked>(ks: Seq<Coeff<T>>, os: Seq<Coeff<T>>) -> Seq<Coeff<T>>
    decreases os.len(),
{
    if os.len() == 0 {
        ks
    } else {
        put_key(put_all(ks, os.drop_last()), os.last())
    }
}

/// What `put_key` keeps and adds.
pub proof fn lemma_put_key<T: Ranked>(ks: Seq<Coeff<T>>, k: Coeff<T>)
    ensures
        has_key(put_key(ks, k), k),
        forall|x: Coeff<T>| has_key(ks, x) ==> has_key(put_key(ks, k), x),
        forall|i: int|
            0 <= i < put_key(ks, k).len() ==> #[trigger] put_key(ks, k)[i] == k || exists|j: int|
                0 <= j < ks.len() && put_key(ks, k)[i] == ks[j],
        put_key(ks, k).len() <= ks.len() + 1,
        put_key(ks, k).len() >= ks.len(),
{
    let r = put_key(ks, k);
    if !has_key(ks, k) {
        let c = count_before(ks, k);
        lemma_count_before_range(ks, k);
        assert(r[c] == k);
        assert forall|x: Coeff<T>| has_key(ks, x) implies has_key(r, x) by {
            let j = choose|j: int| 0 <= j < ks.len() && same_key(#[trigger] ks[j], x);
            if j < c {
                assert(r[j] == ks[j]);
            } else {
                assert(r[j + 1] == ks[j]);
            }
        }
        assert forall|i: int| 0 <= i < r.len() implies #[trigger] r[i] == k || exists|j: int| 0 <= j < ks.len() && r[i] == ks[j] by {
            if i < c {
                assert(r[i] == ks[i]);
            } else if i > c {
                assert(r[i] == ks[i - 1]);
            }
        }
    } else {
        let p = key_position(ks, k);
        assert(same_key(r[p], k));
        assert forall|i: int| 0 <= i < r.len() implies #[trigger] r[i] == k || exists|j: int| 0 <= j < ks.len() && r[i] == ks[j] by {
            assert(r[i] == ks[i]);
        }
    }
}

proof fn lemma_count_before_range<T: Ranked>(ks: Seq<Coeff<T>>, k: Coeff<T>)
    ensures
        0 <= count_before(ks, k) <= ks.len(),
    decreases ks.len(),
{
    if ks.len() > 0 {
        lemma_count_before_range(ks.drop_last(), k);
    }
}

/// Putting keys keeps the keys that were there and adds each one put.
pub proof fn lemma_put_all_has<T: Ranked>(ks: Seq<Coeff<T>>, os: Seq<Coeff<T>>)
    ensures
        forall|x: Coeff<T>| has_key(ks, x) ==> has_key(put_all(ks, os), x),
        forall|j: int| 0 <= j < os.len() ==> has_key(put_all(ks, os), #[trigger] os[j]),
    decreases os.len(),
{
    if os.len() > 0 {
        let d = os.drop_last();
        lemma_put_all_has(ks, d);
        lemma_put_key(put_all(ks, d), os.last());
        assert forall|j: int| 0 <= j < os.len() implies has_key(put_all(ks, os), #[trigger] os[j]) by {
            if j < os.len() - 1 {
                assert(os[j] == d[j]);
            }
        }
    }
}

/// No key of `os` is the same as a key of `ks`, nor as another key of `os`.
pub open spec fn fresh_keys<T: Ranked>(ks: Seq<Coeff<T>>, os: Seq<Coeff<T>>) -> bool {
    &&& forall|i: int, j: int| 0 <= i < ks.len() && 0 <= j < os.len() ==> !same_key(#[trigger] ks[i], #[trigger] os[j])
    &&& forall|i: int, j: int| 0 <= i < j < os.len() ==> !same_key(#[trigger] os[i], #[trigger] os[j])
}

/// Putting a key that is not there keeps the keys sorted and adds just it.
proof fn lemma_put_key_new<T: Ranked>(ks: Seq<Coeff<T>>, k: Coeff<T>)
    requires
        keys_sorted(ks),
        !has_key(ks, k),
    ensures
        keys_sorted(put_key(ks, k)),
        forall|x: Coeff<T>| put_key(ks, k).contains(x) <==> (ks.contains(x) || x == k),
{
    let c = count_before(ks, k);
    lemma_count_before_range(ks, k);
    lemma_count_before_prefix(ks, k);
    let r = put_key(ks, k);
    assert(r == ks.insert(c, k));
    assert forall|a: int, b: int| 0 <= a < b < r.len() implies key_before(#[trigger] r[a], #[trigger] r[b]) by {
        if a < c && b == c {
        } else if a == c && b > c {
            lemma_key_trichotomy(ks[b - 1], k);
        } else if a < c && b > c {
            lemma_key_trichotomy(ks[b - 1], k);
            lemma_key_transitive(ks[a], k, ks[b - 1]);
        }
    }
    assert forall|x: Coeff<T>| r.contains(x) <==> (ks.contains(x) || x == k) by {
        if r.contains(x) {
            let i = choose|i: int| 0 <= i < r.len() && r[i] == x;
            if i < c {
                assert(ks[i] == x);
            } else if i > c {
                assert(ks[i - 1] == x);
            }
        }
        if ks.contains(x) {
            let i = choose|i: int| 0 <= i < ks.len() && ks[i] == x;
            if i < c {
                assert(r[i] == x);
            } else {
                assert(r[i + 1] == x);
            }
        }
        if x == k {
            assert(r[c] == x);
        }
    }
}

/// In a sorted list the keys counted by `count_before` are the first ones.
proof fn lemma_count_before_prefix<T: Ranked>(ks: Seq<Coeff<T>>, k: Coeff<T>)
    requires
        keys_sorted(ks),
    ensures
        forall|i: int| 0 <= i < count_before(ks, k) ==> key_before(#[trigger] ks[i], k),
        forall|i: int| count_before(ks, k) <= i < ks.len() ==> !key_before(#[trigger] ks[i], k),
    decreases ks.len(),
{
    if ks.len() > 0 {
        let d = ks.drop_last();
        lemma_count_before_prefix(d, k);
        lemma_count_before_range(d, k);
        let cd = count_before(d, k);
        if key_before(ks.last(), k) {
            assert forall|i: int| 0 <= i < count_before(ks, k) implies key_before(#[trigger] ks[i], k) by {
                if i < ks.len() - 1 {
                    lemma_key_transitive(ks[i], ks.last(), k);
                }
            }
            assert forall|i: int| cd <= i < d.len() implies !key_before(#[trigger] d[i], k) by {
            }
            if cd < d.len() {
                assert(key_before(d[cd], ks.last()));
                lemma_key_transitive(d[cd], ks.last(), k);
                assert(false);
            }
        } else {
            assert forall|i: int| 0 <= i < count_before(ks, k) implies key_before(#[trigger] ks[i], k) by {
                assert(d[i] == ks[i]);
            }
            assert forall|i: int| count_before(ks, k) <= i < ks.len() implies !key_before(#[trigger] ks[i], k) by {
                if i < ks.len() - 1 {
                    assert(d[i] == ks[i]);
                }
            }
        }
    }
}

/// Putting fresh keys keeps the keys sorted and adds exactly them.
proof fn lemma_put_all_fresh<T: Ranked>(ks: Seq<Coeff<T>>, os: Seq<Coeff<T>>)
    requires
        keys_sorted(ks),
        fresh_keys(ks, os),
    ensures
        keys_sorted(put_all(ks, os)),
        forall|x: Coeff<T>| put_all(ks, os).contains(x) <==> (ks.contains(x) || os.contains(x)),
    decreases os.len(),
{
    if os.len() > 0 {
        let d = os.drop_last();
        assert(fresh_keys(ks, d)) by {
            assert forall|i: int, j: int| 0 <= i < ks.len() && 0 <= j < d.len() implies !same_key(#[trigger] ks[i], #[trigger] d[j]) by {
                assert(d[j] == os[j]);
            }
            assert forall|i: int, j: int| 0 <= i < j < d.len() implies !same_key(#[trigger] d[i], #[trigger] d[j]) by {
                assert(d[i] == os[i] && d[j] == os[j]);
            }
        }
        lemma_put_all_fresh(ks, d);
        let prev = put_all(ks, d);
        let k = os.last();
        if has_key(prev, k) {
            let i = choose|i: int| 0 <= i < prev.len() && same_key(#[trigger] prev[i], k);
            assert(prev.contains(prev[i]));
            if ks.contains(prev[i]) {
                let a = choose|a: int| 0 <= a < ks.len() && ks[a] == prev[i];
                assert(!same_key(ks[a], os[os.len() - 1]));
            } else {
                let a = choose|a: int| 0 <= a < d.len() && d[a] == prev[i];
                assert(!same_key(os[a], os[os.len() - 1]));
            }
        }
        lemma_put_key_new(prev, k);
        assert forall|x: Coeff<T>| put_all(ks, os).contains(x) <==> (ks.contains(x) || os.contains(x)) by {
            if os.contains(x) && x != k {
                let j = choose|j: int| 0 <= j < os.len() && os[j] == x;
                assert(d[j] == x);
            }
            if d.contains(x) {
                let j = choose|j: int| 0 <= j < d.len() && d[j] == x;
                assert(os[j] == x);
            }
            if x == k {
                assert(os[os.len() - 1] == x);
            }
        }
    }
}

/// Two sorted lists of keys with the same members are equal.
proof fn lemma_sorted_unique<T: Ranked>(a: Seq<Coeff<T>>, b: Seq<Coeff<T>>)
    requires
        keys_sorted(a),
        keys_sorted(b),
        forall|x: Coeff<T>| a.contains(x) <==> b.contains(x),
    ensures
        a == b,
    decreases a.len() + b.len(),
{
    if a.len() == 0 {
        if b.len() > 0 {
            assert(b.contains(b[0]));
        }
        assert(a =~= b);
    } else if b.len() == 0 {
        assert(a.contains(a[0]));
    } else {
        assert(a.contains(a[0]));
        assert(b.contains(b[0]));
        let i = choose|i: int| 0 <= i < a.len() && a[i] == b[0];
        let j = choose|j: int| 0 <= j < b.len() && b[j] == a[0];
        if i > 0 && j > 0 {
            assert(key_before(a[0], b[0]));
            assert(key_before(b[0], a[0]));
            lemma_key_trichotomy(a[0], b[0]);
        }
        assert(a[0] == b[0]);
        let a1 = a.drop_first();
        let b1 = b.drop_first();
        assert forall|x: Coeff<T>| a1.contains(x) <==> b1.contains(x) by {
            if a1.contains(x) {
                let p = choose|p: int| 0 <= p < a1.len() && a1[p] == x;
                assert(a[p + 1] == x);
                assert(a.contains(x));
                assert(b.contains(x));
                assert(key_before(a[0], a[p + 1]));
                lemma_key_trichotomy(a[0], x);
                let q = choose|q: int| 0 <= q < b.len() && b[q] == x;
                assert(q != 0);
                assert(b1[q - 1] == x);
            }
            if b1.contains(x) {
                let p = choose|p: int| 0 <= p < b1.len() && b1[p] == x;
                assert(b[p + 1] == x);
                assert(b.contains(x));
                assert(a.contains(x));
                assert(key_before(b[0], b[p + 1]));
                lemma_key_trichotomy(b[0], x);
                let q = choose|q: int| 0 <= q < a.len() && a[q] == x;
                assert(q != 0);
                assert(a1[q - 1] == x);
            }
        }
        lemma_sorted_unique(a1, b1);
        assert(a =~= seq![a[0]] + a1);
        assert(b =~= seq![b[0]] + b1);
    }
}

/// Splitting the keys of a tree and joining the halves gives back its keys.
pub proof fn law_split_join<T: Ranked>(ks: Seq<Coeff<T>>)
    requires
        keys_sorted(ks),
    ensures
        put_all(alternate(ks, 0), alternate(ks, 1)) == ks,
{
    let a = alternate(ks, 0);
    let b = alternate(ks, 1);
    assert(keys_sorted(a));
    assert(keys_sorted(b));
    assert forall|i: int, j: int| 0 <= i < a.len() && 0 <= j < b.len() implies !same_key(#[trigger] a[i], #[trigger] b[j]) by {
        if 2 * i < 2 * j + 1 {
            assert(key_before(ks[2 * i], ks[2 * j + 1]));
        } else {
            assert(key_before(ks[2 * j + 1], ks[2 * i]));
        }
        lemma_key_trichotomy(ks[2 * i], ks[2 * j + 1]);
    }
    assert forall|i: int, j: int| 0 <= i < j < b.len() implies !same_key(#[trigger] b[i], #[trigger] b[j]) by {
        assert(key_before(ks[2 * i + 1], ks[2 * j + 1]));
        lemma_key_trichotomy(ks[2 * i + 1], ks[2 * j + 1]);
    }
    lemma_put_all_fresh(a, b);
    let r = put_all(a, b);
    assert forall|x: Coeff<T>| r.contains(x) <==> ks.contains(x) by {
        if ks.contains(x) {
            let p = choose|p: int| 0 <= p < ks.len() && ks[p] == x;
            if p % 2 == 0 {
                assert(a[p / 2] == x);
            } else {
                assert(b[p / 2] == x);
            }
        }
        if a.contains(x) {
            let p = choose|p: int| 0 <= p < a.len() && a[p] == x;
            assert(ks[2 * p] == x);
        }
        if b.contains(x) {
            let p = choose|p: int| 0 <= p < b.len() && b[p] == x;
            assert(ks[2 * p + 1] == x);
        }
    }
    lemma_sorted_unique(r, ks);
}

impl<T: Ranked> CoeffTree<T, ()> {
    /// Splits the keys in two: those at even positions go left, those at odd
    /// positions go right.
    pub fn split(self) -> (r: (Self, Self))
        requires
            self.wf(),
        ensures
            r.0.wf(),
            r.1.wf(),
            r.0.key_seq() == alternate(self.key_seq(), 0),
            r.1.key_seq() == alternate(self.key_seq(), 1),
    {
        let ghost ks = self.keys@;
        let n = self.keys.len();
        let mut rev = Self::keys_reversed(self.keys);
        let mut left: Vec<Coeff<T>> = Vec::new();
        let mut right: Vec<Coeff<T>> = Vec::new();
        let mut lv: Vec<()> = Vec::new();
        let mut rv: Vec<()> = Vec::new();
        let mut i: usize = 0;
        while i < n
            invariant
                n == ks.len(),
                keys_sorted(ks),
                i <= n,
                rev@.len() + i == n,
                forall|k: int| 0 <= k < rev@.len() ==> #[trigger] rev@[k] == ks[n - 1 - k],
                left@ == alternate(ks.take(i as int), 0),
                right@ == alternate(ks.take(i as int), 1),
                lv@.len() == left@.len(),
                rv@.len() == right@.len(),
            decreases n - i,
        {
            let k = rev.pop().unwrap();
            if i % 2 == 0 {
                left.push(k);
                lv.push(());
            } else {
                right.push(k);
                rv.push(());
            }
            proof {
                assert(left@ =~= alternate(ks.take(i + 1), 0));
                assert(right@ =~= alternate(ks.take(i + 1), 1));
            }
            i = i + 1;
        }
        proof {
            assert(ks.take(n as int) =~= ks);
        }
        (CoeffTree { keys: left, values: lv }, CoeffTree { keys: right, values: rv })
    }

    /// The keys, in order, moved out, last one first.
    fn keys_reversed(keys: Vec<Coeff<T>>) -> (rev: Vec<Coeff<T>>)
        ensures
            rev@.len() == keys@.len(),
            forall|i: int| 0 <= i < rev@.len() ==> #[trigger] rev@[i] == keys@[keys@.len() - 1 - i],
    {
        let ghost ks = keys@;
        let mut keys = keys;
        let mut rev: Vec<Coeff<T>> = Vec::new();
        while keys.len() > 0
            invariant
                keys@ == ks.take(keys@.len() as int),
                rev@.len() + keys@.len() == ks.len(),
                forall|i: int| 0 <= i < rev@.len() ==> #[trigger] rev@[i] == ks[ks.len() - 1 - i],
            decreases keys@.len(),
        {
            let k = keys.pop().unwrap();
            rev.push(k);
        }
        rev
    }

    /// Puts every key of `other` into this tree.
    pub fn join(&mut self, other: Self)
        requires
            old(self).wf(),
            other.wf(),
        ensures
            final(self).wf(),
            final(self).key_seq() == put_all(old(self).key_seq(), other.key_seq()),
    {
        let ghost os = other.keys@;
        let n = other.keys.len();
        let mut rev = Self::keys_reversed(other.keys);
        let mut i: usize = 0;
        while i < n
            invariant
                n == os.len(),
                self.wf(),
                i <= n,
                rev@.len() + i == n,
                forall|k: int| 0 <= k < rev@.len() ==> #[trigger] rev@[k] == os[n - 1 - k],
                self.key_seq() == put_all(old(self).key_seq(), os.take(i as int)),
            decreases n - i,
        {
            let k = rev.pop().unwrap();
            self.put(k, ());
            proof {
                assert(os.take(i + 1).drop_last() =~= os.take(i as int));
            }
            i = i + 1;
        }
        proof {
            assert(os.take(n as int) =~= os);
        }
    }
}

/// The prime powers of all the items, item by item.
pub open spec fn all_prime_powers<T: Factorisable>(items: Seq<T>) -> Seq<T>
    decreases items.len(),
{
    if items.len() == 0 {
        Seq::empty()
    } else {
        all_prime_powers(items.drop_last()) + items.last().spec_prime_power_decomposition()
    }
}

/// Some key of `ks` has the coefficient `c`.
pub open spec fn has_coeff<T: Ranked>(ks: Seq<Coeff<T>>, c: T) -> bool {
    exists|i: int| 0 <= i < ks.len() && (#[trigger] ks[i]).value() == c
}

/// What holds of a tree built from `items`, whatever the random identifiers:
/// its keys are sorted, every prime power of the items has a key, every key
/// carries one of them, and there are no more keys than prime powers.
pub open spec fn built_from<T: Factorisable>(t: CoeffTree<T, ()>, items: Seq<T>) -> bool {
    &&& t.wf()
    &&& forall|j: int|
        0 <= j < all_prime_powers(items).len() ==> has_coeff(t.key_seq(), #[trigger] all_prime_powers(items)[j])
    &&& forall|i: int| 0 <= i < t.key_seq().len() ==> all_prime_powers(items).contains(#[trigger] t.key_seq()[i].value())
    &&& t.key_seq().len() <= all_prime_powers(items).len()
}

/// The generators of the ideals that are powers of a single prime: not one,
/// and with a decomposition of one prime power.
pub open spec fn prime_power_ideals<T: Ring + Factorisable>() -> Seq<T> {
    T::spec_ideals().filter(|x: T| x != T::spec_one() && x.spec_prime_power_decomposition().len() == 1)
}

/// The sequences of `d` coefficients from `pp`, for `d` in `1..=max`, the
/// shorter first.
pub open spec fn coeff_seqs<T>(pp: Seq<T>, max: nat) -> Seq<Seq<T>>
    decreases max,
{
    if max == 0 {
        Seq::empty()
    } else {
        coeff_seqs(pp, (max - 1) as nat) + power_seqs(pp, max)
    }
}

/// The coefficients that modules are built from are powers of a single
/// prime: every ideal listed is not the ring itself and decomposes into
/// exactly one prime power, and every ideal with both properties is listed.
pub proof fn law_prime_power_ideals<T: Ring + Factorisable>()
    ensures
        forall|i: int|
            0 <= i < prime_power_ideals::<T>().len() ==> {
                &&& #[trigger] prime_power_ideals::<T>()[i] != T::spec_one()
                &&& prime_power_ideals::<T>()[i].spec_prime_power_decomposition().len() == 1
                &&& T::spec_ideals().contains(prime_power_ideals::<T>()[i])
            },
        forall|i: int|
            0 <= i < T::spec_ideals().len() && #[trigger] T::spec_ideals()[i] != T::spec_one()
                && T::spec_ideals()[i].spec_prime_power_decomposition().len() == 1 ==> prime_power_ideals::<T>().contains(
                T::spec_ideals()[i],
            ),
{
    let pred = |x: T| x != T::spec_one() && x.spec_prime_power_decomposition().len() == 1;
    let pp = T::spec_ideals().filter(pred);
    assert(pp == prime_power_ideals::<T>());
    assert forall|i: int| 0 <= i < pp.len() implies {
        &&& #[trigger] pp[i] != T::spec_one()
        &&& pp[i].spec_prime_power_decomposition().len() == 1
        &&& T::spec_ideals().contains(pp[i])
    } by {
        T::spec_ideals().lemma_filter_pred(pred, i);
        assert(pp.contains(pp[i]));
        T::spec_ideals().lemma_filter_contains_rev(pred, pp[i]);
    }
    assert forall|i: int|
        0 <= i < T::spec_ideals().len() && #[trigger] T::spec_ideals()[i] != T::spec_one()
            && T::spec_ideals()[i].spec_prime_power_decomposition().len() == 1 implies pp.contains(T::spec_ideals()[i]) by {
        T::spec_ideals().lemma_filter_contains(pred, i);
    }
}

/// Items that each decompose into one prime power give as many prime powers
/// as there are items.
pub proof fn law_single_prime_powers<T: Factorisable>(items: Seq<T>)
    requires
        forall|j: int| 0 <= j < items.len() ==> (#[trigger] items[j]).spec_prime_power_decomposition().len() == 1,
    ensures
        all_prime_powers(items).len() == items.len(),
    decreases items.len(),
{
    if items.len() > 0 {
        let d = items.drop_last();
        assert forall|j: int| 0 <= j < d.len() implies (#[trigger] d[j]).spec_prime_power_decomposition().len() == 1 by {
            assert(d[j] == items[j]);
        }
        law_single_prime_powers(d);
        assert(items.last() == items[items.len() - 1]);
    }
}

/// Every sequence of `coeff_seqs(pp, max)` has between one and `max` items,
/// each an item of `pp`.
proof fn lemma_coeff_seqs<T>(pp: Seq<T>, max: nat)
    ensures
        forall|i: int|
            0 <= i < coeff_seqs(pp, max).len() ==> 1 <= (#[trigger] coeff_seqs(pp, max)[i]).len() <= max && forall|j: int|
                0 <= j < coeff_seqs(pp, max)[i].len() ==> pp.contains(#[trigger] coeff_seqs(pp, max)[i][j]),
    decreases max,
{
    if max > 0 {
        lemma_coeff_seqs(pp, (max - 1) as nat);
        lemma_power_seqs_len(pp, max);
        lemma_power_seqs_members(pp, max);
        let prev = coeff_seqs(pp, (max - 1) as nat);
        let ps = power_seqs(pp, max);
        let all = coeff_seqs(pp, max);
        assert(all == prev + ps);
        assert forall|i: int| 0 <= i < all.len() implies 1 <= (#[trigger] all[i]).len() <= max && forall|j: int|
            0 <= j < all[i].len() ==> pp.contains(#[trigger] all[i][j]) by {
            if i < prev.len() {
                assert(all[i] == prev[i]);
            } else {
                assert(all[i] == ps[i - prev.len()]);
            }
        }
    }
}

/// Every generator of an ideal can be decomposed.
pub open spec fn ideals_decomposable<T: Ring + Factorisable>() -> bool {
    forall|i: int| 0 <= i < T::spec_ideals().len() ==> (#[trigger] T::spec_ideals()[i]).decomposable()
}

impl<T: Ring + Factorisable> CoeffTree<T, ()> {
    fn prime_power_ideals() -> (v: Vec<T>)
        requires
            T::inhabited(),
            ideals_decomposable::<T>(),
        ensures
            v@ == prime_power_ideals::<T>(),
    {
        let ideals = T::ideals();
        let ghost s = ideals@;
        let ghost pred = |x: T| x != T::spec_one() && x.spec_prime_power_decomposition().len() == 1;
        let mut v: Vec<T> = Vec::new();
        let mut i: usize = 0;
        while i < ideals.len()
            invariant
                ideals@ == s,
                s == T::spec_ideals(),
                ideals_decomposable::<T>(),
                pred == (|x: T| x != T::spec_one() && x.spec_prime_power_decomposition().len() == 1),
                i <= s.len(),
                v@ == s.take(i as int).filter(pred),
            decreases s.len() - i,
        {
            let x = ideals[i];
            proof {
                assert(s.take(i + 1).drop_last() =~= s.take(i as int));
                reveal_with_fuel(Seq::filter, 1);
            }
            if !x.is_one() && x.prime_power_decomposition().len() == 1 {
                v.push(x);
            }
            i = i + 1;
        }
        proof {
            assert(s.take(s.len() as int) =~= s);
        }
        v
    }

    /// The trees built from every sequence of `dimension` coefficients that
    /// are powers of a single prime.
    fn all_torsion_coeffs_fixed_dimension(dimension: Zahl) -> (v: Vec<Self>)
        requires
            T::inhabited(),
            ideals_decomposable::<T>(),
        ensures
            v@.len() == power_seqs(prime_power_ideals::<T>(), dimension as nat).len(),
            forall|i: int|
                0 <= i < v@.len() ==> built_from(#[trigger] v@[i], power_seqs(prime_power_ideals::<T>(), dimension as nat)[i]),
    {
        let pp = Self::prime_power_ideals();
        let ghost ps = power_seqs(pp@, dimension as nat);
        proof {
            lemma_power_seqs_members(pp@, dimension as nat);
        }
        let seqs = product(pp, dimension);
        let n = seqs.len();
        let mut rev: Vec<Vec<T>> = Vec::new();
        let mut seqs = seqs;
        let ghost all = seqs@;
        assert(all.len() == ps.len());
        while seqs.len() > 0
            invariant
                all.len() == n,
                seqs@ == all.take(seqs@.len() as int),
                rev@.len() + seqs@.len() == n,
                forall|k: int| 0 <= k < rev@.len() ==> #[trigger] rev@[k] == all[n - 1 - k],
            decreases seqs@.len(),
        {
            let x = seqs.pop().unwrap();
            rev.push(x);
        }
        let mut v: Vec<Self> = Vec::new();
        let mut i: usize = 0;
        while i < n
            invariant
                all.len() == n,
                all.map_values(|w: Vec<T>| w@) == ps,
                ps == power_seqs(prime_power_ideals::<T>(), dimension as nat),
                forall|a: int, b: int| 0 <= a < ps.len() && 0 <= b < ps[a].len() ==> prime_power_ideals::<T>().contains(
                    #[trigger] ps[a][b],
                ),
                ideals_decomposable::<T>(),
                i <= n,
                rev@.len() + i == n,
                forall|k: int| 0 <= k < rev@.len() ==> #[trigger] rev@[k] == all[n - 1 - k],
                v@.len() == i,
                forall|k: int| 0 <= k < i ==> built_from(#[trigger] v@[k], ps[k]),
            decreases n - i,
        {
            let items = rev.pop().unwrap();
            assert(items@ == ps[i as int]);
            proof {
                assert forall|k: int| 0 <= k < items@.len() implies (#[trigger] items@[k]).decomposable() by {
                    assert(prime_power_ideals::<T>().contains(ps[i as int][k]));
                    let pred = |x: T| x != T::spec_one() && x.spec_prime_power_decomposition().len() == 1;
                    T::spec_ideals().lemma_filter_contains_rev(pred, items@[k]);
                }
            }
            let t = Self::from_iter(items);
            v.push(t);
            i = i + 1;
        }
        v
    }

    /// The trees built from every sequence of at most `maximal_dimension`
    /// (and at least one) coefficients that are powers of a single prime,
    /// the shorter sequences first.
    pub fn all_torsion_coeffs(maximal_dimension: Zahl) -> (v: Vec<Self>)
        requires
            T::inhabited(),
            ideals_decomposable::<T>(),
            maximal_dimension < u16::MAX,
        ensures
            v@.len() == coeff_seqs(prime_power_ideals::<T>(), maximal_dimension as nat).len(),
            forall|i: int|
                0 <= i < v@.len() ==> built_from(#[trigger] v@[i], coeff_seqs(prime_power_ideals::<T>(), maximal_dimension as nat)[i]),
            forall|i: int| 0 <= i < v@.len() ==> (#[trigger] v@[i]).key_seq().len() <= maximal_dimension,
    {
        proof {
            let pp = prime_power_ideals::<T>();
            let cs = coeff_seqs(pp, maximal_dimension as nat);
            law_prime_power_ideals::<T>();
            lemma_coeff_seqs(pp, maximal_dimension as nat);
            assert forall|i: int| 0 <= i < cs.len() implies #[trigger] all_prime_powers(cs[i]).len() == cs[i].len() by {
                assert forall|j: int| 0 <= j < cs[i].len() implies (#[trigger] cs[i][j]).spec_prime_power_decomposition().len() == 1 by {
                    assert(pp.contains(cs[i][j]));
                }
                law_single_prime_powers(cs[i]);
            }
        }
        let mut v: Vec<Self> = Vec::new();
        let mut d: Zahl = 1;
        while d < maximal_dimension + 1
            invariant
                T::inhabited(),
                ideals_decomposable::<T>(),
                maximal_dimension < u16::MAX,
                1 <= d <= maximal_dimension + 1,
                v@.len() == coeff_seqs(prime_power_ideals::<T>(), (d - 1) as nat).len(),
                forall|i: int| 0 <= i < v@.len() ==> built_from(#[trigger] v@[i], coeff_seqs(prime_power_ideals::<T>(), (d - 1) as nat)[i]),
            decreases maximal_dimension + 1 - d,
        {
            let ghost before = v@;
            let mut more = Self::all_torsion_coeffs_fixed_dimension(d);
            let ghost added = more@;
            v.append(&mut more);
            proof {
                let pp = prime_power_ideals::<T>();
                let cs = coeff_seqs(pp, (d - 1) as nat);
                assert(coeff_seqs(pp, d as nat) == cs + power_seqs(pp, d as nat));
                assert(v@ == before + added);
                assert forall|i: int| 0 <= i < v@.len() implies built_from(#[trigger] v@[i], coeff_seqs(pp, d as nat)[i]) by {
                    if i < before.len() {
                        assert(v@[i] == before[i]);
                    } else {
                        assert(v@[i] == added[i - before.len()]);
                    }
                }
            }
            d = d + 1;
        }
        v
    }
}

impl<T: Ring + Factorisable> CoeffTree<T, ()> {
    /// The trees of `all_torsion_coeffs`, by the length of their sequence.
    pub fn all_torsion_coeffs_hashed(maximal_dimension: Zahl) -> (m: HashMap<Zahl, Vec<Self>>)
        requires
            T::inhabited(),
            ideals_decomposable::<T>(),
            maximal_dimension < u16::MAX,
        ensures
            forall|d: Zahl| m@.contains_key(d) <==> 1 <= d <= maximal_dimension,
            forall|d: Zahl|
                #![trigger m@[d]]
                1 <= d <= maximal_dimension ==> {
                    &&& m@[d]@.len() == power_seqs(prime_power_ideals::<T>(), d as nat).len()
                    &&& forall|i: int|
                        0 <= i < m@[d]@.len() ==> built_from(
                            #[trigger] m@[d]@[i],
                            power_seqs(prime_power_ideals::<T>(), d as nat)[i],
                        )
                },
    {
        let mut m: HashMap<Zahl, Vec<Self>> = HashMap::new();
        let mut d: Zahl = 1;
        while d < maximal_dimension + 1
            invariant
                T::inhabited(),
                ideals_decomposable::<T>(),
                maximal_dimension < u16::MAX,
                1 <= d <= maximal_dimension + 1,
                forall|e: Zahl| m@.contains_key(e) <==> 1 <= e < d,
                forall|e: Zahl|
                    #![trigger m@[e]]
                    1 <= e < d ==> {
                        &&& m@[e]@.len() == power_seqs(prime_power_ideals::<T>(), e as nat).len()
                        &&& forall|i: int|
                            0 <= i < m@[e]@.len() ==> built_from(
                                #[trigger] m@[e]@[i],
                                power_seqs(prime_power_ideals::<T>(), e as nat)[i],
                            )
                    },
            decreases maximal_dimension + 1 - d,
        {
            let trees = Self::all_torsion_coeffs_fixed_dimension(d);
            m.insert(d, trees);
            d = d + 1;
        }
        m
    }
}

impl<T: Factorisable> CoeffTree<T, ()> {
    /// Puts a key with a fresh identifier for every prime power of `key`.
    /// Each identifier is random, so a key may, by chance, meet an equal key
    /// already there; the contract says what holds either way: the old keys
    /// stay, every prime power has a key, every new key carries one of them.
    pub fn insert(&mut self, key: T)
        requires
            old(self).wf(),
            key.decomposable(),
        ensures
            final(self).wf(),
            forall|x: Coeff<T>| has_key(old(self).key_seq(), x) ==> has_key(final(self).key_seq(), x),
            forall|j: int|
                0 <= j < key.spec_prime_power_decomposition().len() ==> has_coeff(
                    final(self).key_seq(),
                    #[trigger] key.spec_prime_power_decomposition()[j],
                ),
            forall|i: int|
                0 <= i < final(self).key_seq().len() ==> has_key(old(self).key_seq(), #[trigger] final(self).key_seq()[i])
                    || key.spec_prime_power_decomposition().contains(final(self).key_seq()[i].value()),
            final(self).key_seq().len() <= old(self).key_seq().len() + key.spec_prime_power_decomposition().len(),
    {
        let powers = key.prime_power_decomposition();
        let ghost ks0 = self.keys@;
        let mut i: usize = 0;
        while i < powers.len()
            invariant
                self.wf(),
                powers@ == key.spec_prime_power_decomposition(),
                i <= powers@.len(),
                forall|x: Coeff<T>| has_key(ks0, x) ==> has_key(self.key_seq(), x),
                forall|j: int| 0 <= j < i ==> has_coeff(self.key_seq(), #[trigger] powers@[j]),
                forall|k: int|
                    0 <= k < self.key_seq().len() ==> has_key(ks0, #[trigger] self.key_seq()[k]) || powers@.take(
                        i as int,
                    ).contains(self.key_seq()[k].value()),
                self.key_seq().len() <= ks0.len() + i,
            decreases powers@.len() - i,
        {
            let c = Coeff::new(powers[i], fresh_rc_id());
            let ghost before = self.keys@;
            self.put(c, ());
            proof {
                lemma_put_key(before, c);
                let after = self.keys@;
                let p = choose|q: int| 0 <= q < after.len() && same_key(#[trigger] after[q], c);
                T::lemma_rank_injective(after[p].value(), c.value());
                assert forall|j: int| 0 <= j < i + 1 implies has_coeff(after, #[trigger] powers@[j]) by {
                    if j < i {
                        let q = choose|q: int| 0 <= q < before.len() && (#[trigger] before[q]).value() == powers@[j];
                        assert(has_key(before, before[q]));
                        let r = choose|r: int| 0 <= r < after.len() && same_key(#[trigger] after[r], before[q]);
                        T::lemma_rank_injective(after[r].value(), before[q].value());
                    } else {
                        assert(after[p].value() == powers@[j]);
                    }
                }
                assert forall|k: int| 0 <= k < after.len() implies has_key(ks0, #[trigger] after[k]) || powers@.take(i + 1).contains(
                    after[k].value(),
                ) by {
                    if after[k] == c {
                        assert(powers@.take(i + 1)[i as int] == c.value());
                    } else {
                        let j = choose|j: int| 0 <= j < before.len() && after[k] == before[j];
                        if !has_key(ks0, before[j]) {
                            let w = choose|w: int| 0 <= w < i && powers@.take(i as int)[w] == before[j].value();
                            assert(powers@.take(i + 1)[w] == before[j].value());
                        }
                    }
                }
            }
            i = i + 1;
        }
        proof {
            assert(powers@.take(i as int) =~= powers@);
        }
    }

    /// The tree with a key, with a fresh identifier, for every prime power of
    /// every item; see `insert` for what the random identifiers leave open.
    pub fn from_iter(items: Vec<T>) -> (t: Self)
        requires
            forall|i: int| 0 <= i < items@.len() ==> (#[trigger] items@[i]).decomposable(),
        ensures
            built_from(t, items@),
    {
        let mut t = Self::new();
        let mut i: usize = 0;
        while i < items.len()
            invariant
                t.wf(),
                i <= items@.len(),
                forall|k: int| 0 <= k < items@.len() ==> (#[trigger] items@[k]).decomposable(),
                forall|j: int|
                    0 <= j < all_prime_powers(items@.take(i as int)).len() ==> has_coeff(
                        t.key_seq(),
                        #[trigger] all_prime_powers(items@.take(i as int))[j],
                    ),
                forall|k: int|
                    0 <= k < t.key_seq().len() ==> all_prime_powers(items@.take(i as int)).contains(
                        #[trigger] t.key_seq()[k].value(),
                    ),
                t.key_seq().len() <= all_prime_powers(items@.take(i as int)).len(),
            decreases items@.len() - i,
        {
            let ghost before = t.keys@;
            let ghost prev = all_prime_powers(items@.take(i as int));
            t.insert(items[i]);
            proof {
                let d = items@[i as int].spec_prime_power_decomposition();
                assert(items@.take(i + 1).drop_last() =~= items@.take(i as int));
                let now = all_prime_powers(items@.take(i + 1));
                assert(now == prev + d);
                let after = t.keys@;
                assert forall|j: int| 0 <= j < now.len() implies has_coeff(after, #[trigger] now[j]) by {
                    if j < prev.len() {
                        assert(now[j] == prev[j]);
                        let q = choose|q: int| 0 <= q < before.len() && (#[trigger] before[q]).value() == prev[j];
                        assert(has_key(before, before[q]));
                        let r = choose|r: int| 0 <= r < after.len() && same_key(#[trigger] after[r], before[q]);
                        T::lemma_rank_injective(after[r].value(), before[q].value());
                    } else {
                        assert(now[j] == d[j - prev.len()]);
                    }
                }
                assert forall|k: int| 0 <= k < after.len() implies now.contains(#[trigger] after[k].value()) by {
                    if has_key(before, after[k]) {
                        let q = choose|q: int| 0 <= q < before.len() && same_key(#[trigger] before[q], after[k]);
                        T::lemma_rank_injective(after[k].value(), before[q].value());
                        let w = choose|w: int| 0 <= w < prev.len() && prev[w] == before[q].value();
                        assert(now[w] == prev[w]);
                    } else {
                        let w = choose|w: int| 0 <= w < d.len() && d[w] == after[k].value();
                        assert(now[prev.len() + w] == d[w]);
                    }
                }
            }
            i = i + 1;
        }
        proof {
            assert(items@.take(i as int) =~= items@);
        }
        t
    }
}

impl<T: Ranked, V: Copy> CoeffTree<T, V> {
    /// The values as a matrix of one column.
    pub fn as_matrix(&self) -> (m: Matrix<V>)
        requires
            self.value_seq().len() <= u8::MAX,
        ensures
            m.ncols() == 1,
            m.nrows() == self.value_seq().len(),
            m.entries() == self.value_seq(),
    {
        let mut col: Vec<V> = Vec::new();
        let mut i: usize = 0;
        while i < self.values.len()
            invariant
                i <= self.value_seq().len(),
                col@ == self.value_seq().take(i as int),
            decreases self.value_seq().len() - i,
        {
            col.push(self.values[i]);
            proof {
                assert(self.value_seq().take(i + 1) =~= self.value_seq().take(i as int).push(self.value_seq()[i as int]));
            }
            i = i + 1;
        }
        proof {
            assert(self.value_seq().take(i as int) =~= self.value_seq());
        }
        let n = col.len() as u8;
        Matrix::from_buffer(col, 1, n)
    }

    /// The keys of `coeffs` with the entries of `matrix`, in order, as far as
    /// both go.
    pub fn from_matrix(matrix: Matrix<V>, coeffs: &CoeffTree<T, ()>) -> (t: Self)
        requires
            coeffs.wf(),
        ensures
            t.wf(),
            t.key_seq() == coeffs.key_seq().take(t.key_seq().len() as int),
            t.value_seq() == matrix.entries().take(t.key_seq().len() as int),
            t.key_seq().len() == (if coeffs.key_seq().len() < matrix.entries().len() {
                coeffs.key_seq().len()
            } else {
                matrix.entries().len()
            }),
    {
        let entries = matrix.into_iter();
        let mut keys: Vec<Coeff<T>> = Vec::new();
        let mut values: Vec<V> = Vec::new();
        let mut i: usize = 0;
        while i < coeffs.keys.len() && i < entries.len()
            invariant
                coeffs.wf(),
                i <= coeffs.key_seq().len(),
                i <= entries@.len(),
                keys@ == coeffs.key_seq().take(i as int),
                values@ == entries@.take(i as int),
            decreases coeffs.key_seq().len() - i,
        {
            keys.push(coeffs.keys[i].copy());
            values.push(entries[i]);
            proof {
                assert(coeffs.key_seq().take(i + 1) =~= coeffs.key_seq().take(i as int).push(coeffs.key_seq()[i as int]));
                assert(entries@.take(i + 1) =~= entries@.take(i as int).push(entries@[i as int]));
            }
            i = i + 1;
        }
        CoeffTree { keys, values }
    }
}

impl<T: Ranked, V> Default for CoeffTree<T, V> {
    fn default() -> (t: Self)
        ensures
            t.wf(),
            t.key_seq().len() == 0,
    {
        Self::new()
    }
}

/* # coefficients stay among the prime powers */

/// Every key of `ks` carries a coefficient among `ps`.
pub open spec fn coeffs_among<T: Ranked>(ks: Seq<Coeff<T>>, ps: Seq<T>) -> bool {
    forall|i: int| 0 <= i < ks.len() ==> ps.contains(#[trigger] ks[i].value())
}

/// A tree built from `items` carries only the prime powers of the items.
pub proof fn law_built_from_prime_powers<T: Factorisable>(t: CoeffTree<T, ()>, items: Seq<T>)
    requires
        built_from(t, items),
    ensures
        coeffs_among(t.key_seq(), all_prime_powers(items)),
        keys_sorted(t.key_seq()),
{
}

/// Splitting a tree keeps every coefficient among those it had: both halves
/// carry coefficients of the tree.
pub proof fn law_split_keeps_coeffs<T: Ranked>(ks: Seq<Coeff<T>>, ps: Seq<T>)
    requires
        coeffs_among(ks, ps),
    ensures
        coeffs_among(alternate(ks, 0), ps),
        coeffs_among(alternate(ks, 1), ps),
{
    let (a, b) = (alternate(ks, 0), alternate(ks, 1));
    assert forall|i: int| 0 <= i < a.len() implies ps.contains(#[trigger] a[i].value()) by {
        assert(a[i] == ks[2 * i]);
    }
    assert forall|i: int| 0 <= i < b.len() implies ps.contains(#[trigger] b[i].value()) by {
        assert(b[i] == ks[1 + 2 * i]);
    }
}

/// Joining two trees keeps every coefficient among those they had.
pub proof fn law_join_keeps_coeffs<T: Ranked>(ks: Seq<Coeff<T>>, os: Seq<Coeff<T>>, ps: Seq<T>)
    requires
        coeffs_among(ks, ps),
        coeffs_among(os, ps),
    ensures
        coeffs_among(put_all(ks, os), ps),
    decreases os.len(),
{
    if os.len() > 0 {
        let d = os.drop_last();
        assert forall|i: int| 0 <= i < d.len() implies ps.contains(#[trigger] d[i].value()) by {
            assert(d[i] == os[i]);
        }
        law_join_keeps_coeffs(ks, d, ps);
        let prev = put_all(ks, d);
        let k = os.last();
        lemma_put_key(prev, k);
        let r = put_key(prev, k);
        assert forall|i: int| 0 <= i < r.len() implies ps.contains(#[trigger] r[i].value()) by {
            if r[i] != k {
                let j = choose|j: int| 0 <= j < prev.len() && r[i] == prev[j];
                assert(ps.contains(prev[j].value()));
            } else {
                assert(ps.contains(os[os.len() - 1].value()));
            }
        }
    }
}

/* # combining by reference and by value */

/// Combining by reference is combining by value: where `by_ref` and
/// `by_value` give one and the same result on the same values (as
/// `by_value` on clones of what `by_ref` reads), `combine_ref` on `s` and
/// `o` and `combine` on trees with the same keys and values give the same
/// keys and the same values.
pub proof fn law_combine_ref_is_combine<T: Ranked, V, U, W, G: Fn(&V, &U, T) -> W, F: Fn(V, U, T) -> W>(
    s: CoeffTree<T, V>,
    o: CoeffTree<T, U>,
    s2: CoeffTree<T, V>,
    o2: CoeffTree<T, U>,
    by_ref: G,
    by_value: F,
    t1: CoeffTree<T, W>,
    t2: CoeffTree<T, W>,
)
    requires
        s2.key_seq() == s.key_seq() && s2.value_seq() == s.value_seq(),
        o2.key_seq() == o.key_seq() && o2.value_seq() == o.value_seq(),
        forall|a: V, b: U, c: T, w1: W, w2: W|
            call_ensures(by_ref, (&a, &b, c), w1) && call_ensures(by_value, (a, b, c), w2) ==> w1 == w2,
        combined_ref(s, o, by_ref, t1),
        combined(s2, o2, by_value, t2),
    ensures
        t1.key_seq() == t2.key_seq(),
        t1.value_seq() == t2.value_seq(),
{
    assert forall|j: int| 0 <= j < t1.value_seq().len() implies t1.value_seq()[j] == t2.value_seq()[j] by {
        assert(0 <= j < t1.key_seq().len());
        let i = common_positions(s.key_seq(), o.key_seq())[j];
        let (a, b, c) = (s.value_seq()[i], o.value_seq()[key_position(o.key_seq(), s.key_seq()[i])], s.key_seq()[i].value());
        assert(call_ensures(by_ref, (&a, &b, c), t1.value_seq()[j]));
        assert(call_ensures(by_value, (a, b, c), t2.value_seq()[j]));
    }
    assert(t1.value_seq() =~= t2.value_seq());
}

} // verus!
