//! The algebraic structures, as interfaces for element types to implement:
//! each operation is tied to a spec function of the implementing type, and
//! the provided operations are proved from those.
use vstd::prelude::*;
use vstd::std_specs::cmp::PartialEqSpec;

verus! {

/* # collections */

/// An element of an algebraic structure whose elements can be listed.
pub trait Demesne: Sized {
    /// Every element, in a fixed order.
    spec fn spec_elements() -> Seq<Self>;

    fn elements() -> (v: Vec<Self>)
        ensures
            v@ == Self::spec_elements(),
    ;
}

/// The items of `v`, moved out, in order, as a list to pop from the end.
fn reversed<T>(v: Vec<T>) -> (r: Vec<T>)
    ensures
        r@.len() == v@.len(),
        forall|i: int| 0 <= i < r@.len() ==> #[trigger] r@[i] == v@[v@.len() - 1 - i],
{
    let ghost s = v@;
    let mut v = v;
    let mut r: Vec<T> = Vec::new();
    while v.len() > 0
        invariant
            v@ == s.take(v@.len() as int),
            r@.len() + v@.len() == s.len(),
            forall|i: int| 0 <= i < r@.len() ==> #[trigger] r@[i] == s[s.len() - 1 - i],
        decreases v@.len(),
    {
        let x = v.pop().unwrap();
        r.push(x);
    }
    r
}

/* # additive structure */

/// The results of `f` on the items of `es`, in order, where it gives one.
pub open spec fn results_of<T>(es: Seq<T>, f: spec_fn(T) -> Option<T>) -> Seq<T>
    decreases es.len(),
{
    if es.len() == 0 {
        Seq::empty()
    } else {
        let rest = results_of(es.drop_last(), f);
        match f(es.last()) {
            Some(n) => rest.push(n),
            None => rest,
        }
    }
}

pub trait AdditiveMonoid: Demesne {
    spec fn spec_zero() -> Self;

    spec fn spec_add(self, other: Self) -> Self;

    /// The additive inverse, when there is one.
    spec fn spec_try_neg(self) -> Option<Self>;

    fn zero() -> (z: Self)
        ensures
            z == Self::spec_zero(),
    ;

    fn add(self, other: Self) -> (r: Self)
        ensures
            r == self.spec_add(other),
    ;

    fn add_assign(&mut self, other: Self)
        ensures
            *final(self) == old(self).spec_add(other),
    ;

    fn is_zero(&self) -> (b: bool)
        ensures
            b == (*self == Self::spec_zero()),
    ;

    fn is_negable(&self) -> (b: bool)
        ensures
            b == self.spec_try_neg() is Some,
    ;

    fn try_neg(self) -> (r: Option<Self>)
        ensures
            r == self.spec_try_neg(),
    ;

    /// The additive inverses of the elements that have one, in the order of
    /// the elements.
    fn negable_elements() -> (v: Vec<Self>)
        ensures
            v@ == results_of(Self::spec_elements(), |x: Self| x.spec_try_neg()),
    {
        let es = Self::elements();
        let ghost s = es@;
        let n = es.len();
        let mut rev = reversed(es);
        let mut v: Vec<Self> = Vec::new();
        let mut i: usize = 0;
        while i < n
            invariant
                n == s.len(),
                s == Self::spec_elements(),
                i <= n,
                rev@.len() + i == n,
                forall|k: int| 0 <= k < rev@.len() ==> #[trigger] rev@[k] == s[n - 1 - k],
                v@ == results_of(s.take(i as int), |x: Self| x.spec_try_neg()),
            decreases n - i,
        {
            let e = rev.pop().unwrap();
            proof {
                assert(s.take(i + 1).drop_last() =~= s.take(i as int));
            }
            match e.try_neg() {
                Some(m) => {
                    v.push(m);
                },
                None => {
                },
            }
            i = i + 1;
        }
        proof {
            assert(s.take(n as int) =~= s);
        }
        v
    }

    /// `self` plus the inverse of `other`, when `other` has one.
    fn try_sub(self, other: Self) -> (r: Option<Self>)
        ensures
            r == match other.spec_try_neg() {
                Some(n) => Some(self.spec_add(n)),
                None => None,
            },
    {
        match other.try_neg() {
            Some(n) => Some(self.add(n)),
            None => None,
        }
    }
}

pub trait AdditiveGroup: AdditiveMonoid {
    spec fn spec_neg(self) -> Self;

    fn neg(self) -> (r: Self)
        ensures
            r == self.spec_neg(),
    ;

    fn neg_inplace(&mut self)
        ensures
            *final(self) == old(self).spec_neg(),
    ;

    /// `self` plus the inverse of `other`.
    fn sub(self, other: Self) -> (r: Self)
        ensures
            r == self.spec_add(other.spec_neg()),
    {
        self.add(other.neg())
    }

    /// Adds the inverse of `other` to `self`.
    fn sub_assign(&mut self, other: Self)
        ensures
            *final(self) == old(self).spec_add(other.spec_neg()),
    {
        self.add_assign(other.neg());
    }
}

/* # multiplicative structure */

pub trait MultiplicativeMonoid: Demesne {
    spec fn spec_one() -> Self;

    spec fn spec_mul(self, other: Self) -> Self;

    /// The multiplicative inverse, when there is one.
    spec fn spec_try_inv(self) -> Option<Self>;

    fn one() -> (o: Self)
        ensures
            o == Self::spec_one(),
    ;

    fn mul(self, other: Self) -> (r: Self)
        ensures
            r == self.spec_mul(other),
    ;

    fn mul_assign(&mut self, other: Self)
        ensures
            *final(self) == old(self).spec_mul(other),
    ;

    fn is_one(&self) -> (b: bool)
        ensures
            b == (*self == Self::spec_one()),
    ;

    fn is_invable(&self) -> (b: bool)
        ensures
            b == self.spec_try_inv() is Some,
    ;

    fn try_inv(self) -> (r: Option<Self>)
        ensures
            r == self.spec_try_inv(),
    ;

    /// The multiplicative inverses of the elements that have one, in the
    /// order of the elements.
    fn invable_elements() -> (v: Vec<Self>)
        ensures
            v@ == results_of(Self::spec_elements(), |x: Self| x.spec_try_inv()),
    {
        let es = Self::elements();
        let ghost s = es@;
        let n = es.len();
        let mut rev = reversed(es);
        let mut v: Vec<Self> = Vec::new();
        let mut i: usize = 0;
        while i < n
            invariant
                n == s.len(),
                s == Self::spec_elements(),
                i <= n,
                rev@.len() + i == n,
                forall|k: int| 0 <= k < rev@.len() ==> #[trigger] rev@[k] == s[n - 1 - k],
                v@ == results_of(s.take(i as int), |x: Self| x.spec_try_inv()),
            decreases n - i,
        {
            let e = rev.pop().unwrap();
            proof {
                assert(s.take(i + 1).drop_last() =~= s.take(i as int));
            }
            match e.try_inv() {
                Some(m) => {
                    v.push(m);
                },
                None => {
                },
            }
            i = i + 1;
        }
        proof {
            assert(s.take(n as int) =~= s);
        }
        v
    }

    /// `self` times the inverse of `other`, when `other` has one.
    fn try_div(self, other: Self) -> (r: Option<Self>)
        ensures
            r == match other.spec_try_inv() {
                Some(n) => Some(self.spec_mul(n)),
                None => None,
            },
    {
        match other.try_inv() {
            Some(n) => Some(self.mul(n)),
            None => None,
        }
    }
}

/* # rings */

pub trait Ring: AdditiveGroup + MultiplicativeMonoid {
    /// The elements `x` with `self * x == r`.
    spec fn spec_try_divisor(self, r: Self) -> Seq<Self>;

    spec fn spec_is_divisor(self, r: Self) -> bool;

    spec fn spec_divisors(self) -> Seq<Self>;

    spec fn spec_principal_ideal(self) -> Seq<Self>;

    spec fn spec_ideal(r: Self, s: Self) -> Seq<Self>;

    /// The elements `x` such that `self * x == r`.
    fn try_divisor(self, r: Self) -> (v: Vec<Self>)
        ensures
            v@ == self.spec_try_divisor(r),
    ;

    fn is_divisor(&self, r: Self) -> (b: bool)
        ensures
            b == self.spec_is_divisor(r),
    ;

    fn divisors(self) -> (v: Vec<Self>)
        ensures
            v@ == self.spec_divisors(),
    ;

    fn principal_ideal(self) -> (v: Vec<Self>)
        ensures
            v@ == self.spec_principal_ideal(),
    ;

    fn ideal(r: Self, s: Self) -> (v: Vec<Self>)
        ensures
            v@ == Self::spec_ideal(r, s),
    ;
}

/// The products, by `times`, of the runs of consecutive factors of `fs` that
/// are equal by `same`, in order.
pub open spec fn run_products<T>(fs: Seq<T>, same: spec_fn(T, T) -> bool, times: spec_fn(T, T) -> T) -> Seq<T>
    decreases fs.len(),
{
    if fs.len() == 0 {
        Seq::empty()
    } else {
        let rest = run_products(fs.drop_last(), same, times);
        if fs.len() >= 2 && same(fs[fs.len() - 2], fs.last()) {
            rest.update(rest.len() - 1, times(rest.last(), fs.last()))
        } else {
            rest.push(fs.last())
        }
    }
}

proof fn lemma_run_products_len<T>(fs: Seq<T>, same: spec_fn(T, T) -> bool, times: spec_fn(T, T) -> T)
    ensures
        fs.len() > 0 ==> run_products(fs, same, times).len() > 0,
        run_products(fs, same, times).len() <= fs.len(),
    decreases fs.len(),
{
    if fs.len() > 0 {
        lemma_run_products_len(fs.drop_last(), same, times);
    }
}

pub trait FactorialRing: Ring + Copy + PartialEq {
    /// The prime factors, with repetition, equal ones next to each other.
    spec fn spec_factors(self) -> Seq<Self>;

    fn factors(self) -> (v: Vec<Self>)
        ensures
            v@ == self.spec_factors(),
    ;

    /// The products of the runs of equal factors: the prime powers.
    fn power_factors(self) -> (v: Vec<Self>)
        requires
            Self::obeys_eq_spec(),
        ensures
            v@ == run_products(self.spec_factors(), |a: Self, b: Self| a.eq_spec(&b), |a: Self, b: Self| a.spec_mul(b)),
    {
        let f = self.factors();
        let ghost s = f@;
        let mut v: Vec<Self> = Vec::new();
        let mut i: usize = 0;
        while i < f.len()
            invariant
                Self::obeys_eq_spec(),
                f@ == s,
                i <= s.len(),
                v@ == run_products(s.take(i as int), |a: Self, b: Self| a.eq_spec(&b), |a: Self, b: Self| a.spec_mul(b)),
            decreases s.len() - i,
        {
            let x = f[i];
            proof {
                assert(s.take(i + 1).drop_last() =~= s.take(i as int));
                lemma_run_products_len(s.take(i as int), |a: Self, b: Self| a.eq_spec(&b), |a: Self, b: Self| a.spec_mul(b));
            }
            if i > 0 && f[i - 1] == x {
                let last = v.len() - 1;
                let p = v[last].mul(x);
                v.set(last, p);
            } else {
                v.push(x);
            }
            i = i + 1;
        }
        proof {
            assert(s.take(s.len() as int) =~= s);
        }
        v
    }
}

pub trait BezoutRing: Ring {
    /// A greatest common divisor `g` of `r` and `s`, with `x` and `y` such
    /// that `g == r * x + s * y`.
    spec fn spec_gcd(r: Self, s: Self) -> (Self, Self, Self);

    /// Returns `(g, x, y)` with `g == r * x + s * y`.
    fn gcd(r: Self, s: Self) -> (t: (Self, Self, Self))
        ensures
            t == Self::spec_gcd(r, s),
            t.0 == r.spec_mul(t.1).spec_add(s.spec_mul(t.2)),
    ;
}

} // verus!
