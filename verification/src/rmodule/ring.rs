use vstd::prelude::*;
use vstd::arithmetic::div_mod::*;
use vstd::arithmetic::mul::*;
use crate::util::number::{divisors, gcd_binary_u16, gcd_euclid_u16, gcd_u16, lemma_gcd_divides, lemma_gcd_of_multiple, spec_gcd, spec_divisors};
use crate::util::matrix::Semiring;

verus! {

/// Plain integers, as used for ring representatives.
pub type Zahl = crate::Int;

/* # structure */

/// An element of the ring Z/N.
///
/// The residue is held as a representative in `1..=N`: the class of zero is
/// held as `N` itself, every other class as its least positive member.
/// Elements are ordered by that representative, so zero is the largest one.
#[derive(Clone, Copy, Debug, Eq, Hash, PartialOrd, Ord)]
pub struct Fin<const N: u16> {
    zahl: Zahl,
}

impl<const N: u16> PartialEq for Fin<N> {
    fn eq(&self, other: &Self) -> (r: bool) {
        self.zahl == other.zahl
    }
}

impl<const N: u16> vstd::std_specs::cmp::PartialEqSpecImpl for Fin<N> {
    open spec fn obeys_eq_spec() -> bool {
        true
    }

    open spec fn eq_spec(&self, other: &Self) -> bool {
        self.raw() == other.raw()
    }
}

/// The representative in `1..=n` of the class of `z` modulo `n`.
pub open spec fn spec_rep(z: int, n: int) -> int {
    if z % n == 0 {
        n
    } else {
        z % n
    }
}

impl<const N: u16> Fin<N> {
    #[verifier::type_invariant]
    closed spec fn inv(self) -> bool {
        1 <= self.zahl <= N
    }

    /// The representative, in `1..=N`.
    pub closed spec fn raw(self) -> int {
        self.zahl as int
    }

    /// The residue, in `0..N`.
    pub open spec fn val(self) -> int {
        self.raw() % (N as int)
    }

    /// The element of Z/N whose representative is `spec_rep(z, N)`.
    pub closed spec fn from_int(z: int) -> Self {
        Fin { zahl: spec_rep(z, N as int) as u16 }
    }

    /// The sum computed by `add`.
    pub open spec fn spec_add(a: Self, b: Self) -> Self {
        Self::from_int(a.raw() + b.raw())
    }

    /// The product computed by `mul`.
    pub open spec fn spec_mul(a: Self, b: Self) -> Self {
        Self::from_int(a.raw() * b.raw())
    }

    /// The additive inverse computed by `neg`.
    pub open spec fn spec_neg(a: Self) -> Self {
        Self::from_int(N - a.raw())
    }

    /// The quotient computed by `divide_by`.
    pub open spec fn spec_divide_by(a: Self, b: Self) -> Self {
        if a.raw() % b.raw() == 0 {
            Self::from_int(a.raw() / b.raw())
        } else {
            a
        }
    }

    /// The remainder computed by `rem`.
    pub open spec fn spec_rem(a: Self, b: Self) -> Self {
        Self::from_int(a.raw() % b.raw())
    }

    /// The greatest common divisor computed by `gcd`.
    pub open spec fn spec_gcd_of(a: Self, b: Self) -> Self {
        Self::from_int(spec_gcd(a.raw() as nat, b.raw() as nat) as int)
    }

    /// Every value of the type is well formed; ghost values are not covered
    /// by the type invariant, so statements about them carry this.
    pub closed spec fn wf(self) -> bool {
        1 <= self.zahl <= N
    }

    pub proof fn lemma_from_int(z: int)
        requires
            N > 0,
        ensures
            Self::from_int(z).wf(),
            Self::from_int(z).raw() == spec_rep(z, N as int),
            Self::from_int(z).val() == z % (N as int),
    {
        lemma_rep(z, N as int);
    }

    pub proof fn lemma_wf(self)
        requires
            self.wf(),
        ensures
            1 <= self.raw() <= N,
            N > 0,
            self.val() == (if self.raw() == N { 0 } else { self.raw() }),
            Self::from_int(self.raw()) == self,
            Self::from_int(self.val()) == self,
    {
        if self.raw() == N {
            lemma_mod_self_0(N as int);
        } else {
            lemma_small_mod(self.raw() as nat, N as nat);
        }
        lemma_rep(self.raw(), N as int);
        lemma_rep(self.val(), N as int);
        lemma_mod_twice(self.raw(), N as int);
    }

    /// Two well formed elements are equal exactly when their residues are.
    pub proof fn lemma_eq_iff_val(self, other: Self)
        requires
            self.wf(),
            other.wf(),
        ensures
            (self == other) <==> (self.val() == other.val()),
    {
        self.lemma_wf();
        other.lemma_wf();
    }

    /// An element is determined by its representative.
    pub proof fn lemma_raw_injective(a: Self, b: Self)
        requires
            a.raw() == b.raw(),
        ensures
            a == b,
    {
    }

    /// The representative of the class of `z`.
    pub fn new(z: Zahl) -> (r: Self)
        requires
            N > 0,
        ensures
            r == Self::from_int(z as int),
            r.raw() == spec_rep(z as int, N as int),
            r.val() == z as int % (N as int),
    {
        proof {
            lemma_rep(z as int, N as int);
        }
        let m = z % N;
        Fin { zahl: if m == 0 { N } else { m } }
    }

    /// The representative, in `1..=N` (zero is `N`).
    pub fn get(&self) -> (r: Zahl)
        ensures
            r as int == self.raw(),
            1 <= r <= N,
            self.wf(),
    {
        proof {
            use_type_invariant(self);
        }
        self.zahl
    }

    /// The representative, as a `usize`.
    pub fn into_usize(self) -> (r: usize)
        ensures
            r as int == self.raw(),
    {
        self.get() as usize
    }

    pub fn zero() -> (r: Self)
        requires
            N > 0,
        ensures
            r.val() == 0,
            r.raw() == N,
            r == Self::from_int(0),
    {
        Self::new(0)
    }

    pub fn one() -> (r: Self)
        requires
            N > 0,
        ensures
            r.val() == 1int % (N as int),
            r == Self::from_int(1),
    {
        Self::new(1)
    }

    pub fn is_zero(&self) -> (b: bool)
        ensures
            b <==> self.val() == 0,
            b <==> self.raw() == N,
    {
        proof {
            use_type_invariant(self);
            self.lemma_wf();
        }
        self.zahl == N
    }

    pub fn is_one(&self) -> (b: bool)
        ensures
            b <==> self.raw() == 1,
    {
        self.zahl == 1
    }

    /// Addition of representatives, reduced modulo N.
    pub fn add(self, other: Self) -> (r: Self)
        requires
            self.raw() + other.raw() <= u16::MAX,
        ensures
            r == Self::spec_add(self, other),
            r.val() == (self.val() + other.val()) % (N as int),
    {
        proof {
            use_type_invariant(&self);
            use_type_invariant(&other);
            lemma_add_mod_noop(self.raw(), other.raw(), N as int);
            lemma_rep(self.raw() + other.raw(), N as int);
        }
        Self::new(self.zahl + other.zahl)
    }

    /// Multiplication of representatives, reduced modulo N.
    pub fn mul(self, other: Self) -> (r: Self)
        requires
            self.raw() * other.raw() <= u16::MAX,
        ensures
            r == Self::spec_mul(self, other),
            r.val() == (self.val() * other.val()) % (N as int),
    {
        proof {
            use_type_invariant(&self);
            use_type_invariant(&other);
            lemma_mul_mod_noop(self.raw(), other.raw(), N as int);
            lemma_rep(self.raw() * other.raw(), N as int);
        }
        Self::new(self.zahl * other.zahl)
    }

    /// The additive inverse.
    pub fn neg(self) -> (r: Self)
        ensures
            r == Self::spec_neg(self),
            (r.val() + self.val()) % (N as int) == 0,
    {
        proof {
            use_type_invariant(&self);
            self.lemma_wf();
            lemma_rep(N - self.raw(), N as int);
            lemma_rep(0, N as int);
            lemma_mod_self_0(N as int);
            lemma_add_mod_noop(N - self.raw(), self.raw(), N as int);
            lemma_mod_twice(N - self.raw(), N as int);
        }
        Self::new(N - self.zahl)
    }

    /// The remainder of the representatives, taken again modulo N.
    pub fn rem(self, other: Self) -> (r: Self)
        ensures
            r == Self::spec_rem(self, other),
    {
        proof {
            use_type_invariant(&self);
            use_type_invariant(&other);
            lemma_rep(self.raw() % other.raw(), N as int);
        }
        Self::new(self.zahl % other.zahl)
    }

    /// `self / other` on representatives when `other` divides `self`,
    /// `self` itself otherwise.
    pub fn divide_by(&self, other: &Self) -> (r: Self)
        ensures
            r == Self::spec_divide_by(*self, *other),
    {
        proof {
            use_type_invariant(self);
            use_type_invariant(other);
            lemma_rep(self.raw() / other.raw(), N as int);
        }
        if self.zahl % other.zahl == 0 {
            Self::new(self.zahl / other.zahl)
        } else {
            *self
        }
    }

    /// The element holding the greatest common divisor of the representatives.
    pub fn gcd(self, other: Self) -> (r: Self)
        ensures
            r == Self::spec_gcd_of(self, other),
    {
        proof {
            use_type_invariant(&self);
            use_type_invariant(&other);
        }
        let g: u16 = gcd_u16(self.zahl, other.zahl);
        proof {
            lemma_rep(g as int, N as int);
        }
        Self::new(g)
    }

    /// As `gcd`, computed by the binary algorithm.
    pub fn gcd_binary(self, other: Self) -> (r: Self)
        ensures
            r == Self::spec_gcd_of(self, other),
    {
        proof {
            use_type_invariant(&self);
            use_type_invariant(&other);
        }
        let g: u16 = gcd_binary_u16(self.zahl, other.zahl);
        proof {
            lemma_rep(g as int, N as int);
        }
        Self::new(g)
    }

    /// As `gcd`, computed by Euclid's algorithm.
    pub fn gcd_euclid(self, other: Self) -> (r: Self)
        ensures
            r == Self::spec_gcd_of(self, other),
    {
        proof {
            use_type_invariant(&self);
            use_type_invariant(&other);
        }
        let g: u16 = gcd_euclid_u16(self.zahl, other.zahl);
        proof {
            lemma_rep(g as int, N as int);
        }
        Self::new(g)
    }

    /// Orders elements by their representative (zero is the largest).
    pub fn less_than(&self, other: &Self) -> (b: bool)
        ensures
            b <==> self.raw() < other.raw(),
    {
        self.zahl < other.zahl
    }

    /// All elements of Z/N, in the order of the residues `0, 1, ..., N - 1`.
    pub fn elements() -> (v: Vec<Self>)
        requires
            N > 0,
        ensures
            v@.len() == N,
            forall|j: int| 0 <= j < N ==> #[trigger] v@[j] == Self::from_int(j),
    {
        let mut v: Vec<Self> = Vec::new();
        let mut j: u16 = 0;
        while j < N
            invariant
                N > 0,
                j <= N,
                v@.len() == j,
                forall|i: int| 0 <= i < j ==> #[trigger] v@[i] == Self::from_int(i),
            decreases N - j,
        {
            v.push(Self::new(j));
            j = j + 1;
        }
        v
    }

    /// The generators of the ideals of Z/N: one element per divisor of N, in
    /// increasing order of the divisor.
    pub fn ideals() -> (v: Vec<Self>)
        requires
            N > 0,
        ensures
            v@ == spec_divisors(N as int).map_values(|d: int| Self::from_int(d)),
    {
        let divs = divisors(N);
        Self::from_each(&divs)
    }

    /// The generators of the ideals contained in the one generated by `self`:
    /// one element per divisor of the representative.
    pub fn subideals(&self) -> (v: Vec<Self>)
        ensures
            v@ == spec_divisors(self.raw()).map_values(|d: int| Self::from_int(d)),
    {
        let divs = divisors(self.get());
        proof {
            use_type_invariant(self);
        }
        Self::from_each(&divs)
    }

    fn from_each(zs: &Vec<Zahl>) -> (v: Vec<Self>)
        requires
            N > 0,
        ensures
            v@ == zs@.map_values(|z: Zahl| z as int).map_values(|d: int| Self::from_int(d)),
    {
        let mut v: Vec<Self> = Vec::new();
        let mut i: usize = 0;
        while i < zs.len()
            invariant
                N > 0,
                i <= zs@.len(),
                v@.len() == i,
                forall|k: int| 0 <= k < i ==> #[trigger] v@[k] == Self::from_int(zs@[k] as int),
            decreases zs@.len() - i,
        {
            v.push(Self::new(zs[i]));
            i = i + 1;
        }
        assert(v@ =~= zs@.map_values(|z: Zahl| z as int).map_values(|d: int| Self::from_int(d)));
        v
    }

    /// The primes below 32 that do not exceed N, as elements of Z/N.
    pub fn primes() -> (v: Vec<Self>)
        requires
            N > 0,
        ensures
            v@ == small_primes().filter(|p: int| p <= N).map_values(|p: int| Self::from_int(p)),
    {
        let primes: [Zahl; 11] = [2, 3, 5, 7, 11, 13, 17, 19, 23, 29, 31];
        let mut v: Vec<Self> = Vec::new();
        let mut i: usize = 0;
        let ghost sp = small_primes();
        assert(primes@.map_values(|p: Zahl| p as int) =~= sp);
        while i < 11
            invariant
                N > 0,
                i <= 11,
                sp == small_primes(),
                primes@.map_values(|p: Zahl| p as int) == sp,
                v@ == sp.take(i as int).filter(|p: int| p <= N).map_values(|p: int| Self::from_int(p)),
            decreases 11 - i,
        {
            let p = primes[i];
            proof {
                assert(sp.take(i + 1).drop_last() =~= sp.take(i as int));
                reveal_with_fuel(Seq::filter, 1);
            }
            if p <= N {
                v.push(Self::new(p));
            }
            proof {
                assert(sp.take(i + 1).last() == p as int);
            }
            i = i + 1;
        }
        assert(sp.take(11) =~= sp);
        v
    }
}

/* ## the ring interface */

/// A finite commutative ring, with its ideals listed by generators.
pub trait Ring: Copy + Sized {
    /// The ring has elements (Z/N needs N > 0).
    spec fn inhabited() -> bool;

    spec fn spec_zero() -> Self;

    spec fn spec_one() -> Self;

    spec fn spec_quotient(self, other: Self) -> Self;

    spec fn spec_ideals() -> Seq<Self>;

    spec fn spec_subideals(self) -> Seq<Self>;

    fn zero() -> (r: Self)
        requires
            Self::inhabited(),
        ensures
            r == Self::spec_zero(),
    ;

    fn one() -> (r: Self)
        requires
            Self::inhabited(),
        ensures
            r == Self::spec_one(),
    ;

    fn is_zero(&self) -> (b: bool)
        ensures
            b == (*self == Self::spec_zero()),
    ;

    fn is_one(&self) -> (b: bool)
        ensures
            b == (*self == Self::spec_one()),
    ;

    fn divide_by(&self, other: &Self) -> (r: Self)
        ensures
            r == self.spec_quotient(*other),
    ;

    /// Generators of the ideals of the ring.
    fn ideals() -> (v: Vec<Self>)
        requires
            Self::inhabited(),
        ensures
            v@ == Self::spec_ideals(),
    ;

    /// Generators of the ideals inside the one generated by this element.
    fn subideals(&self) -> (v: Vec<Self>)
        ensures
            v@ == self.spec_subideals(),
    ;
}

impl<const N: u16> Ring for Fin<N> {
    open spec fn inhabited() -> bool {
        N > 0
    }

    open spec fn spec_zero() -> Self {
        Fin::from_int(0)
    }

    open spec fn spec_one() -> Self {
        Fin::from_int(1)
    }

    open spec fn spec_quotient(self, other: Self) -> Self {
        Fin::spec_divide_by(self, other)
    }

    open spec fn spec_ideals() -> Seq<Self> {
        spec_divisors(N as int).map_values(|d: int| Fin::<N>::from_int(d))
    }

    open spec fn spec_subideals(self) -> Seq<Self> {
        spec_divisors(self.raw()).map_values(|d: int| Fin::<N>::from_int(d))
    }

    fn zero() -> (r: Self) {
        Fin::<N>::zero()
    }

    fn one() -> (r: Self) {
        Fin::<N>::one()
    }

    fn is_zero(&self) -> (b: bool) {
        proof {
            use_type_invariant(self);
            Fin::<N>::lemma_from_int(0);
            lemma_rep(0, N as int);
        }
        self.zahl == N
    }

    fn is_one(&self) -> (b: bool) {
        proof {
            use_type_invariant(self);
            Fin::<N>::lemma_from_int(1);
        }
        let one = Fin::<N>::one();
        self.zahl == one.zahl
    }

    fn divide_by(&self, other: &Self) -> (r: Self) {
        Fin::<N>::divide_by(self, other)
    }

    fn ideals() -> (v: Vec<Self>) {
        Fin::<N>::ideals()
    }

    fn subideals(&self) -> (v: Vec<Self>) {
        Fin::<N>::subideals(self)
    }
}

impl<const N: u16> Semiring for Fin<N> {
    open spec fn spec_plus(a: Self, b: Self) -> Self {
        Fin::spec_add(a, b)
    }

    open spec fn spec_times(a: Self, b: Self) -> Self {
        Fin::spec_mul(a, b)
    }

    open spec fn plus_ok(a: Self, b: Self) -> bool {
        a.raw() + b.raw() <= u16::MAX
    }

    open spec fn times_ok(a: Self, b: Self) -> bool {
        a.raw() * b.raw() <= u16::MAX
    }

    fn plus(self, other: Self) -> (r: Self) {
        self.add(other)
    }

    fn times(self, other: Self) -> (r: Self) {
        self.mul(other)
    }
}

/* ## ring laws */

/// Addition in Z/N is commutative.
pub proof fn law_add_commutative<const N: u16>(a: Fin<N>, b: Fin<N>)
    ensures
        Fin::spec_add(a, b) == Fin::spec_add(b, a),
{
    assert(a.raw() + b.raw() == b.raw() + a.raw());
}

/// Addition in Z/N is associative.
pub proof fn law_add_associative<const N: u16>(a: Fin<N>, b: Fin<N>, c: Fin<N>)
    requires
        a.wf(),
        b.wf(),
        c.wf(),
    ensures
        Fin::spec_add(Fin::spec_add(a, b), c) == Fin::spec_add(a, Fin::spec_add(b, c)),
{
    a.lemma_wf();
    let n = N as int;
    Fin::<N>::lemma_from_int(a.raw() + b.raw());
    Fin::<N>::lemma_from_int(b.raw() + c.raw());
    let ab = Fin::spec_add(a, b);
    let bc = Fin::spec_add(b, c);
    Fin::<N>::lemma_from_int(ab.raw() + c.raw());
    Fin::<N>::lemma_from_int(a.raw() + bc.raw());
    lemma_add_mod_noop(ab.raw(), c.raw(), n);
    lemma_add_mod_noop(a.raw() + b.raw(), c.raw(), n);
    lemma_add_mod_noop(a.raw(), bc.raw(), n);
    lemma_add_mod_noop(a.raw(), b.raw() + c.raw(), n);
    assert(a.raw() + b.raw() + c.raw() == a.raw() + (b.raw() + c.raw()));
    Fin::spec_add(ab, c).lemma_eq_iff_val(Fin::spec_add(a, bc));
}

/// Zero is neutral for addition in Z/N.
pub proof fn law_add_zero<const N: u16>(a: Fin<N>)
    requires
        a.wf(),
    ensures
        Fin::spec_add(a, Fin::from_int(0)) == a,
{
    a.lemma_wf();
    let n = N as int;
    Fin::<N>::lemma_from_int(0);
    let z = Fin::<N>::from_int(0);
    Fin::<N>::lemma_from_int(a.raw() + z.raw());
    lemma_mod_self_0(n);
    lemma_add_mod_noop(a.raw(), z.raw(), n);
    lemma_mod_twice(a.raw(), n);
    Fin::spec_add(a, z).lemma_eq_iff_val(a);
}

/// Every element of Z/N has an additive inverse.
pub proof fn law_add_neg<const N: u16>(a: Fin<N>)
    requires
        a.wf(),
    ensures
        Fin::spec_add(a, Fin::spec_neg(a)) == Fin::<N>::from_int(0),
{
    a.lemma_wf();
    let n = N as int;
    Fin::<N>::lemma_from_int(n - a.raw());
    let m = Fin::spec_neg(a);
    Fin::<N>::lemma_from_int(a.raw() + m.raw());
    Fin::<N>::lemma_from_int(0);
    lemma_add_mod_noop(a.raw(), m.raw(), n);
    lemma_add_mod_noop(a.raw(), n - a.raw(), n);
    lemma_mod_twice(n - a.raw(), n);
    lemma_mod_self_0(n);
    Fin::spec_add(a, m).lemma_eq_iff_val(Fin::<N>::from_int(0));
}

/// Multiplication in Z/N is commutative.
pub proof fn law_mul_commutative<const N: u16>(a: Fin<N>, b: Fin<N>)
    ensures
        Fin::spec_mul(a, b) == Fin::spec_mul(b, a),
{
    lemma_mul_is_commutative(a.raw(), b.raw());
}

/// Multiplication in Z/N is associative.
pub proof fn law_mul_associative<const N: u16>(a: Fin<N>, b: Fin<N>, c: Fin<N>)
    requires
        a.wf(),
        b.wf(),
        c.wf(),
    ensures
        Fin::spec_mul(Fin::spec_mul(a, b), c) == Fin::spec_mul(a, Fin::spec_mul(b, c)),
{
    a.lemma_wf();
    let n = N as int;
    Fin::<N>::lemma_from_int(a.raw() * b.raw());
    Fin::<N>::lemma_from_int(b.raw() * c.raw());
    let ab = Fin::spec_mul(a, b);
    let bc = Fin::spec_mul(b, c);
    Fin::<N>::lemma_from_int(ab.raw() * c.raw());
    Fin::<N>::lemma_from_int(a.raw() * bc.raw());
    lemma_mul_mod_noop(ab.raw(), c.raw(), n);
    lemma_mul_mod_noop(a.raw() * b.raw(), c.raw(), n);
    lemma_mul_mod_noop(a.raw(), bc.raw(), n);
    lemma_mul_mod_noop(a.raw(), b.raw() * c.raw(), n);
    lemma_mul_mod_noop_left(ab.raw(), c.raw(), n);
    lemma_mul_mod_noop_left(a.raw() * b.raw(), c.raw(), n);
    lemma_mul_mod_noop_right(a.raw(), bc.raw(), n);
    lemma_mul_mod_noop_right(a.raw(), b.raw() * c.raw(), n);
    lemma_mul_is_associative(a.raw(), b.raw(), c.raw());
    Fin::spec_mul(ab, c).lemma_eq_iff_val(Fin::spec_mul(a, bc));
}

/// One is neutral for multiplication in Z/N.
pub proof fn law_mul_one<const N: u16>(a: Fin<N>)
    requires
        a.wf(),
    ensures
        Fin::spec_mul(a, Fin::from_int(1)) == a,
{
    a.lemma_wf();
    let n = N as int;
    Fin::<N>::lemma_from_int(1);
    let o = Fin::<N>::from_int(1);
    Fin::<N>::lemma_from_int(a.raw() * o.raw());
    lemma_mul_mod_noop_right(a.raw(), o.raw(), n);
    lemma_mul_mod_noop_right(a.raw(), 1, n);
    lemma_mod_twice(a.raw(), n);
    Fin::spec_mul(a, o).lemma_eq_iff_val(a);
}

/// Multiplication distributes over addition in Z/N.
pub proof fn law_distributive<const N: u16>(a: Fin<N>, b: Fin<N>, c: Fin<N>)
    requires
        a.wf(),
        b.wf(),
        c.wf(),
    ensures
        Fin::spec_mul(a, Fin::spec_add(b, c)) == Fin::spec_add(Fin::spec_mul(a, b), Fin::spec_mul(a, c)),
{
    a.lemma_wf();
    let n = N as int;
    let bc = Fin::spec_add(b, c);
    let ab = Fin::spec_mul(a, b);
    let ac = Fin::spec_mul(a, c);
    Fin::<N>::lemma_from_int(b.raw() + c.raw());
    Fin::<N>::lemma_from_int(a.raw() * b.raw());
    Fin::<N>::lemma_from_int(a.raw() * c.raw());
    Fin::<N>::lemma_from_int(a.raw() * bc.raw());
    Fin::<N>::lemma_from_int(ab.raw() + ac.raw());
    lemma_mul_mod_noop_right(a.raw(), bc.raw(), n);
    lemma_mul_mod_noop_right(a.raw(), b.raw() + c.raw(), n);
    lemma_mul_is_distributive_add(a.raw(), b.raw(), c.raw());
    lemma_add_mod_noop(ab.raw(), ac.raw(), n);
    lemma_add_mod_noop(a.raw() * b.raw(), a.raw() * c.raw(), n);
    Fin::spec_mul(a, bc).lemma_eq_iff_val(Fin::spec_add(ab, ac));
}

/* ## facts used to clear entries of a matrix */

/// Zero times anything is zero.
pub proof fn lemma_mul_zero_left<const N: u16>(z: Fin<N>, a: Fin<N>)
    requires
        N > 0,
        z.raw() == N,
    ensures
        Fin::spec_mul(z, a).raw() == N,
{
    Fin::<N>::lemma_from_int(z.raw() * a.raw());
    lemma_mul_is_commutative(N as int, a.raw());
    lemma_mod_multiples_basic(a.raw(), N as int);
    lemma_rep(z.raw() * a.raw(), N as int);
}

/// Zero plus zero is zero.
pub proof fn lemma_add_zeros<const N: u16>(a: Fin<N>, b: Fin<N>)
    requires
        N > 0,
        a.raw() == N,
        b.raw() == N,
    ensures
        Fin::spec_add(a, b).raw() == N,
{
    Fin::<N>::lemma_from_int(a.raw() + b.raw());
    lemma_mod_multiples_basic(2, N as int);
}

/// Sums and products are well formed.
pub proof fn lemma_ops_wf<const N: u16>(a: Fin<N>, b: Fin<N>)
    requires
        N > 0,
    ensures
        Fin::spec_add(a, b).wf(),
        Fin::spec_mul(a, b).wf(),
{
    Fin::<N>::lemma_from_int(a.raw() + b.raw());
    Fin::<N>::lemma_from_int(a.raw() * b.raw());
}

/// Clearing an entry `x` against a pivot `m`, both nonzero, with
/// `g = gcd(x, m)` and `q = -(x / g)`: `x * (m / g) + m * q` is zero, and
/// when `m` divides `x`, so is `x + m * q`.
pub proof fn lemma_clear_entry<const N: u16>(x: Fin<N>, m: Fin<N>)
    requires
        x.wf(),
        m.wf(),
        x.raw() != N,
        m.raw() != N,
    ensures
        ({
            let g = Fin::spec_gcd_of(x, m);
            let q = Fin::spec_neg(Fin::spec_divide_by(x, g));
            &&& Fin::spec_add(Fin::spec_mul(x, Fin::spec_divide_by(m, g)), Fin::spec_mul(m, q)).raw() == N
            &&& Fin::spec_rem(x, m).raw() == N ==> Fin::spec_add(x, Fin::spec_mul(m, q)).raw() == N
        }),
{
    x.lemma_wf();
    m.lemma_wf();
    let n = N as int;
    let a = x.raw();
    let b = m.raw();
    lemma_gcd_divides(a as nat, b as nat);
    let gg = spec_gcd(a as nat, b as nat) as int;
    let g = Fin::spec_gcd_of(x, m);
    Fin::<N>::lemma_from_int(gg);
    lemma_small_mod(gg as nat, n as nat);
    assert(g.raw() == gg);
    // the two quotients
    lemma_fundamental_div_mod(a, gg);
    lemma_fundamental_div_mod(b, gg);
    let qa = a / gg;
    let qb = b / gg;
    assert(1 <= qa && qa <= a) by (nonlinear_arith)
        requires
            a == gg * qa,
            gg >= 1,
            a >= 1,
    ;
    assert(1 <= qb && qb <= b) by (nonlinear_arith)
        requires
            b == gg * qb,
            gg >= 1,
            b >= 1,
    ;
    let dm = Fin::spec_divide_by(m, g);
    let dx = Fin::spec_divide_by(x, g);
    Fin::<N>::lemma_from_int(qb);
    Fin::<N>::lemma_from_int(qa);
    lemma_small_mod(qb as nat, n as nat);
    lemma_small_mod(qa as nat, n as nat);
    assert(dm.raw() == qb);
    assert(dx.raw() == qa);
    let q = Fin::spec_neg(dx);
    Fin::<N>::lemma_from_int(n - qa);
    lemma_small_mod((n - qa) as nat, n as nat);
    assert(q.raw() == n - qa);
    let p1 = Fin::spec_mul(x, dm);
    let p2 = Fin::spec_mul(m, q);
    Fin::<N>::lemma_from_int(a * qb);
    Fin::<N>::lemma_from_int(b * (n - qa));
    Fin::<N>::lemma_from_int(p1.raw() + p2.raw());
    lemma_add_mod_noop(p1.raw(), p2.raw(), n);
    assert(a * qb + b * (n - qa) == b * n) by (nonlinear_arith)
        requires
            a == gg * qa,
            b == gg * qb,
    ;
    lemma_add_mod_noop(a * qb, b * (n - qa), n);
    lemma_mod_multiples_basic(b, n);
    lemma_rep(p1.raw() + p2.raw(), n);
    if Fin::spec_rem(x, m).raw() == N {
        Fin::<N>::lemma_from_int(a % b);
        lemma_mod_bound(a, b);
        lemma_small_mod((a % b) as nat, n as nat);
        assert(a % b == 0);
        lemma_gcd_of_multiple(a as nat, b as nat);
        assert(gg == b);
        Fin::<N>::lemma_from_int(a + p2.raw());
        lemma_add_mod_noop(a, p2.raw(), n);
        assert(a + b * (n - qa) == b * n) by (nonlinear_arith)
            requires
                a == b * qa,
        ;
        lemma_add_mod_noop(a, b * (n - qa), n);
        lemma_mod_twice(a, n);
        lemma_rep(a + p2.raw(), n);
    }
}

/// The primes below 32, in increasing order.
pub open spec fn small_primes() -> Seq<int> {
    seq![2, 3, 5, 7, 11, 13, 17, 19, 23, 29, 31]
}

pub proof fn lemma_rep(z: int, n: int)
    requires
        n > 0,
    ensures
        1 <= spec_rep(z, n) <= n,
        spec_rep(z, n) % n == z % n,
        spec_rep(z, n) <= u16::MAX || n > u16::MAX,
{
    lemma_mod_bound(z, n);
    if z % n == 0 {
        lemma_mod_self_0(n);
    } else {
        lemma_mod_twice(z, n);
    }
}

} // verus!
