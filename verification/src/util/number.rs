use vstd::prelude::*;

verus! {

/// Greatest common divisor, by Euclid's recursion; `spec_gcd(0, 0) == 0`.
pub open spec fn spec_gcd(a: nat, b: nat) -> nat
    decreases b,
{
    if b == 0 {
        a
    } else {
        spec_gcd(b, a % b)
    }
}

/// The greatest common divisor does not depend on the order of its
/// arguments.
pub proof fn lemma_gcd_commutative(a: nat, b: nat)
    ensures
        spec_gcd(a, b) == spec_gcd(b, a),
{
    if a == b {
    } else if b == 0 {
        assert(spec_gcd(0, a) == spec_gcd(a, 0nat % a));
        vstd::arithmetic::div_mod::lemma_small_mod(0, a);
    } else if a == 0 {
        assert(spec_gcd(0, b) == spec_gcd(b, 0nat % b));
        vstd::arithmetic::div_mod::lemma_small_mod(0, b);
    } else if a < b {
        vstd::arithmetic::div_mod::lemma_small_mod(a, b);
        assert(spec_gcd(a, b) == spec_gcd(b, a % b));
    } else {
        vstd::arithmetic::div_mod::lemma_small_mod(b, a);
        assert(spec_gcd(b, a) == spec_gcd(a, b % a));
    }
}

/// The greatest common divisor of two numbers, not both zero, is positive,
/// divides both and is at most each positive one.
pub proof fn lemma_gcd_divides(a: nat, b: nat)
    requires
        a > 0 || b > 0,
    ensures
        spec_gcd(a, b) > 0,
        a % spec_gcd(a, b) == 0,
        b % spec_gcd(a, b) == 0,
        a > 0 ==> spec_gcd(a, b) <= a,
        b > 0 ==> spec_gcd(a, b) <= b,
    decreases b,
{
    if b == 0 {
        vstd::arithmetic::div_mod::lemma_mod_self_0(a as int);
        vstd::arithmetic::div_mod::lemma_small_mod(0, a);
    } else {
        let r = a % b;
        lemma_gcd_divides(b, r);
        let g = spec_gcd(b, r);
        assert(spec_gcd(a, b) == g);
        vstd::arithmetic::div_mod::lemma_fundamental_div_mod(a as int, b as int);
        vstd::arithmetic::div_mod::lemma_fundamental_div_mod(b as int, g as int);
        vstd::arithmetic::div_mod::lemma_fundamental_div_mod(r as int, g as int);
        let k = (b as int / g as int) * (a as int / b as int) + (r as int / g as int);
        assert(a as int == g * k) by (nonlinear_arith)
            requires
                a as int == b * (a as int / b as int) + r,
                b as int == g * (b as int / g as int),
                r as int == g * (r as int / g as int),
                k == (b as int / g as int) * (a as int / b as int) + (r as int / g as int),
        ;
        vstd::arithmetic::mul::lemma_mul_is_commutative(g as int, k);
        vstd::arithmetic::div_mod::lemma_mod_multiples_basic(k, g as int);
        if a > 0 {
            if k <= 0 {
                assert(g * k <= 0) by (nonlinear_arith)
                    requires
                        g > 0,
                        k <= 0,
                ;
            }
            assert(g <= g * k) by (nonlinear_arith)
                requires
                    g > 0,
                    k >= 1,
            ;
        }
    }
}

/// When `b` divides `a`, their greatest common divisor is `b`.
pub proof fn lemma_gcd_of_multiple(a: nat, b: nat)
    requires
        b > 0,
        a % b == 0,
    ensures
        spec_gcd(a, b) == b,
{
    reveal_with_fuel(spec_gcd, 2);
}

/// `gcd::Gcd::gcd` on `u16` (binary gcd): the contract claims that it returns
/// the greatest common divisor as defined by `spec_gcd`.
#[verifier::external_body]
pub(crate) fn gcd_u16(x: u16, y: u16) -> (g: u16)
    ensures
        g == spec_gcd(x as nat, y as nat),
{
    gcd::Gcd::gcd(x, y)
}

/// `gcd::Gcd::gcd_binary` on `u16` (Stein's algorithm): the contract claims
/// the greatest common divisor as defined by `spec_gcd`.
#[verifier::external_body]
pub(crate) fn gcd_binary_u16(x: u16, y: u16) -> (g: u16)
    ensures
        g == spec_gcd(x as nat, y as nat),
{
    gcd::Gcd::gcd_binary(x, y)
}

/// `gcd::Gcd::gcd_euclid` on `u16` (Euclid's algorithm): the contract claims
/// the greatest common divisor as defined by `spec_gcd`.
#[verifier::external_body]
pub(crate) fn gcd_euclid_u16(x: u16, y: u16) -> (g: u16)
    ensures
        g == spec_gcd(x as nat, y as nat),
{
    gcd::Gcd::gcd_euclid(x, y)
}

} // verus!

verus! {

/// The divisors of `n` among `1..=k`, in increasing order.
pub open spec fn divisors_upto(n: int, k: int) -> Seq<int>
    decreases k,
{
    if k <= 0 {
        Seq::empty()
    } else if n % k == 0 {
        divisors_upto(n, k - 1).push(k)
    } else {
        divisors_upto(n, k - 1)
    }
}

/// All positive divisors of `n` in increasing order; none for `n == 0`.
pub open spec fn spec_divisors(n: int) -> Seq<int> {
    if n <= 0 {
        Seq::empty()
    } else {
        divisors_upto(n, n)
    }
}

/// The positive divisors of `number`, in increasing order (none for zero).
pub fn divisors(number: u16) -> (divs: Vec<u16>)
    ensures
        divs@.map_values(|z: u16| z as int) == spec_divisors(number as int),
{
    if number == 0 {
        let v: Vec<u16> = Vec::new();
        assert(v@.map_values(|z: u16| z as int) =~= Seq::<int>::empty());
        return v;
    }
    let n = number;
    let mut divs: Vec<u16> = Vec::new();
    divs.push(1);
    proof {
        reveal_with_fuel(divisors_upto, 2);
        assert(divs@.map_values(|z: u16| z as int) =~= divisors_upto(n as int, 1));
    }
    let mut x: u16 = 2;
    while x < n
        invariant
            n == number,
            n > 0,
            2 <= x,
            x <= n || x == 2,
            divs@.map_values(|z: u16| z as int) == divisors_upto(n as int, x - 1),
        decreases n - x,
    {
        if n % x == 0 {
            divs.push(x);
        }
        proof {
            assert(divs@.map_values(|z: u16| z as int) =~= divisors_upto(n as int, x as int));
        }
        x = x + 1;
    }
    if n > 1 {
        assert(x == n);
        divs.push(n);
        proof {
            vstd::arithmetic::div_mod::lemma_mod_self_0(n as int);
            assert(divs@.map_values(|z: u16| z as int) =~= divisors_upto(n as int, n as int));
        }
    }
    divs
}

/// Whether the greatest common divisor of `x` and `y` is 1.
pub fn are_coprime(x: u16, y: u16) -> (b: bool)
    ensures
        b <==> spec_gcd(x as nat, y as nat) == 1,
{
    gcd_u16(x, y) == 1
}

/// The vector of `length` zeros with a one at `index`; all zeros when
/// `index` is out of range.
pub fn versor(index: usize, length: usize) -> (vers: Vec<u16>)
    ensures
        vers@.len() == length,
        forall|i: int| 0 <= i < length ==> #[trigger] vers@[i] == (if i == index { 1u16 } else { 0u16 }),
{
    let mut vers: Vec<u16> = Vec::new();
    let mut i: usize = 0;
    while i < length
        invariant
            i <= length,
            vers@.len() == i,
            forall|k: int| 0 <= k < i ==> #[trigger] vers@[k] == (if k == index { 1u16 } else { 0u16 }),
        decreases length - i,
    {
        vers.push(if i == index { 1 } else { 0 });
        i = i + 1;
    }
    vers
}

} // verus!
