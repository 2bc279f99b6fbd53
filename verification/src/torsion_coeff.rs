//! The divisors of a base number, and the table of all tuples of them that
//! serve as torsion coefficients of modules of a bounded dimension.
use vstd::prelude::*;
use crate::util::number::{divisors_upto, spec_divisors};
use crate::Int;

verus! {

/// `l` to the power `e`.
pub open spec fn power(l: int, e: nat) -> int
    decreases e,
{
    if e == 0 {
        1
    } else {
        l * power(l, (e - 1) as nat)
    }
}

/// The `dim` digits of `x` in base `l`, the least significant first.
pub open spec fn digits(x: int, l: int, dim: nat) -> Seq<int>
    decreases dim,
{
    if dim == 0 {
        Seq::empty()
    } else {
        seq![x % l] + digits(x / l, l, (dim - 1) as nat)
    }
}

/// Every tuple of `dim` divisors of `base`: the `x`-th holds, at place `i`,
/// the divisor whose position in the increasing list is the `i`-th digit of
/// `x` in base the number of divisors (the first place turns fastest).
pub open spec fn torsion_table(base: int, dim: nat) -> Seq<Seq<Int>> {
    let ds = spec_divisors(base);
    let l = ds.len() as int;
    Seq::new(power(l, dim) as nat, |x: int| Seq::new(dim, |i: int| ds[digits(x, l, dim)[i]] as Int))
}

/// The number of positive divisors of `base`.
pub fn tau_len(base: usize) -> (n: usize)
    requires
        base > 0,
    ensures
        n == spec_divisors(base as int).len(),
{
    let mut k: usize = 0;
    let mut sigma_len: usize = 0;
    while k != base
        invariant
            k <= base,
            sigma_len == divisors_upto(base as int, k as int).len(),
            sigma_len <= k,
        decreases base - k,
    {
        k += 1;
        if base % k == 0 {
            sigma_len += 1;
        }
    }
    sigma_len
}

/// The positive divisors of `base`, in increasing order.
pub fn tau_array(base: usize) -> (tau: Vec<usize>)
    requires
        base > 0,
    ensures
        tau@.map_values(|d: usize| d as int) == spec_divisors(base as int),
{
    let tau_len = tau_len(base);
    let mut tau: Vec<usize> = Vec::new();
    let mut k: usize = 0;
    let mut index: usize = 0;
    while index != tau_len
        invariant
            k <= base,
            tau_len == divisors_upto(base as int, base as int).len(),
            index == divisors_upto(base as int, k as int).len(),
            tau@.len() == index,
            tau@.map_values(|d: usize| d as int) == divisors_upto(base as int, k as int),
        decreases base - k,
    {
        if k == base {
            assert(false);
        }
        proof {
            lemma_divisors_upto_grow(base as int, k + 1, base as int);
        }
        k += 1;
        if base % k == 0 {
            let ghost before = tau@;
            tau.push(k);
            index += 1;
            proof {
                assert(tau@.map_values(|d: usize| d as int) =~= before.map_values(|d: usize| d as int).push(k as int));
            }
        }
    }
    proof {
        lemma_divisors_upto_same_len(base as int, k as int, base as int);
    }
    tau
}

/// Every tuple of `max_dimension` divisors of `base`, in the order of an
/// odometer whose first wheel turns fastest; each divisor is kept as an
/// `Int`, as its value modulo `2^16`.
pub fn torsion_coeff(base: usize, max_dimension: usize) -> (out: Vec<Vec<Int>>)
    requires
        base > 0,
        power(spec_divisors(base as int).len() as int, max_dimension as nat) <= usize::MAX,
    ensures
        out@.len() == torsion_table(base as int, max_dimension as nat).len(),
        forall|x: int| 0 <= x < out@.len() ==> #[trigger] out@[x]@ == torsion_table(base as int, max_dimension as nat)[x],
{
    let tau = tau_array(base);
    let ghost ds = spec_divisors(base as int);
    let tau_len = tau.len();
    proof {
        assert(tau_len == ds.len());
        lemma_divisors_upto_first(base as int);
    }
    let count = power_usize(tau_len, max_dimension);
    let ghost l = tau_len as int;
    let ghost dim = max_dimension as nat;
    let ghost table = torsion_table(base as int, dim);
    let mut output: Vec<Vec<Int>> = Vec::new();
    let mut curr_indices: Vec<usize> = Vec::new();
    let mut i: usize = 0;
    while i < max_dimension
        invariant
            i <= max_dimension,
            curr_indices@.len() == i,
            forall|j: int| 0 <= j < i ==> curr_indices@[j] == 0,
        decreases max_dimension - i,
    {
        curr_indices.push(0);
        i += 1;
    }
    proof {
        lemma_digits_zero(l, dim);
        assert(curr_indices@.map_values(|d: usize| d as int) =~= digits(0, l, dim));
    }
    let mut index: usize = 0;
    let mut first_iteration = true;
    while index < count
        invariant
            tau@.map_values(|d: usize| d as int) == ds,
            tau_len == ds.len(),
            l == tau_len,
            l >= 1,
            dim == max_dimension,
            count == power(l, dim),
            table == torsion_table(base as int, dim),
            ds == spec_divisors(base as int),
            index <= count,
            first_iteration <==> index == 0,
            curr_indices@.len() == dim,
            curr_indices@.map_values(|d: usize| d as int) == digits(if first_iteration { 0 } else { index - 1 }, l, dim),
            output@.len() == index,
            forall|x: int| 0 <= x < index ==> #[trigger] output@[x]@ == table[x],
        decreases count - index,
    {
        if first_iteration {
            first_iteration = false;
        } else {
            let ghost before = curr_indices@.map_values(|d: usize| d as int);
            proof {
                lemma_digits_range((index - 1) as int, l, dim);
                lemma_digits_step((index - 1) as int, l, dim);
            }
            let mut i: usize = 0;
            let mut carrying = true;
            while carrying && i < max_dimension
                invariant
                    i <= max_dimension,
                    dim == max_dimension,
                    curr_indices@.len() == dim,
                    before.len() == dim,
                    forall|j: int| 0 <= j < dim ==> 0 <= #[trigger] before[j] < l,
                    forall|j: int| 0 <= j < i ==> before[j] + 1 == l,
                    carrying ==> curr_indices@.map_values(|d: usize| d as int) == Seq::new(i as nat, |j: int| 0int) + before.skip(i as int),
                    !carrying ==> curr_indices@.map_values(|d: usize| d as int) == odometer_step(before, l),
                    l == tau_len,
                decreases max_dimension - i + (if carrying { 1int } else { 0int }),
            {
                let ghost cm = curr_indices@.map_values(|d: usize| d as int);
                proof {
                    assert(cm[i as int] == (Seq::new(i as nat, |j: int| 0int) + before.skip(i as int))[i as int]);
                    assert(curr_indices@[i as int] as int == before[i as int]);
                }
                curr_indices.set(i, curr_indices[i] + 1);
                if curr_indices[i] == tau_len {
                    curr_indices.set(i, 0);
                    proof {
                        let after = Seq::new((i + 1) as nat, |j: int| 0int) + before.skip(i + 1);
                        let now = curr_indices@.map_values(|d: usize| d as int);
                        assert forall|k: int| 0 <= k < dim implies #[trigger] now[k] == after[k] by {
                            if k != i {
                                assert(curr_indices@[k] as int == cm[k]);
                                if k > i {
                                    assert(cm[k] == before.skip(i as int)[k - i]);
                                    assert(after[k] == before.skip(i + 1)[k - i - 1]);
                                }
                            }
                        }
                        assert(now =~= after);
                    }
                    i += 1;
                } else {
                    carrying = false;
                    proof {
                        lemma_step_prefix(before, l, i as int);
                        let t = before.skip(i as int);
                        assert(t[0] == before[i as int]);
                        assert(odometer_step(t, l) == t.update(0, t[0] + 1));
                        let now = curr_indices@.map_values(|d: usize| d as int);
                        let after = odometer_step(before, l);
                        assert forall|k: int| 0 <= k < dim implies #[trigger] now[k] == after[k] by {
                            assert(after == Seq::new(i as nat, |j: int| 0int) + t.update(0, t[0] + 1));
                            if k != i {
                                assert(curr_indices@[k] as int == cm[k]);
                                if k > i {
                                    assert(cm[k] == t[k - i]);
                                }
                            }
                        }
                        assert(now =~= after);
                    }
                }
            }
            proof {
                if carrying {
                    lemma_step_prefix(before, l, dim as int);
                    assert(before.skip(dim as int) =~= Seq::<int>::empty());
                    assert(Seq::new(dim, |j: int| 0int) + Seq::<int>::empty() =~= Seq::new(dim, |j: int| 0int));
                }
            }
        }
        proof {
            lemma_digits_range(index as int, l, dim);
        }
        let mut row: Vec<Int> = Vec::new();
        let mut i: usize = 0;
        while i < max_dimension
            invariant
                i <= max_dimension,
                dim == max_dimension,
                tau@.map_values(|d: usize| d as int) == ds,
                tau_len == ds.len(),
                l == tau_len,
                curr_indices@.len() == dim,
                curr_indices@.map_values(|d: usize| d as int) == digits(index as int, l, dim),
                forall|j: int| 0 <= j < dim ==> 0 <= #[trigger] digits(index as int, l, dim)[j] < l,
                row@.len() == i,
                forall|j: int| 0 <= j < i ==> #[trigger] row@[j] == ds[digits(index as int, l, dim)[j]] as Int,
            decreases max_dimension - i,
        {
            let c = curr_indices[i];
            proof {
                assert(c as int == digits(index as int, l, dim)[i as int]);
                assert(tau@[c as int] as int == ds[c as int]);
            }
            row.push(tau[c] as Int);
            i += 1;
        }
        proof {
            lemma_power_grows(l, 0, dim);
            assert(table[index as int] == Seq::new(dim, |j: int| ds[digits(index as int, l, dim)[j]] as Int));
            assert(row@ =~= table[index as int]);
        }
        output.push(row);
        index += 1;
    }
    output
}

/// `l` to the power `e`, where it fits.
fn power_usize(l: usize, e: usize) -> (p: usize)
    requires
        l >= 1,
        power(l as int, e as nat) <= usize::MAX,
    ensures
        p == power(l as int, e as nat),
{
    let mut p: usize = 1;
    let mut k: usize = 0;
    while k < e
        invariant
            k <= e,
            l >= 1,
            power(l as int, e as nat) <= usize::MAX,
            p == power(l as int, k as nat),
        decreases e - k,
    {
        proof {
            lemma_power_grows(l as int, (k + 1) as nat, e as nat);
            assert(p * l == l * p) by (nonlinear_arith);
        }
        p = p * l;
        k += 1;
    }
    p
}

/* # odometers */

/// One turn of an odometer with wheels of `l` positions, the first wheel
/// turning fastest: wheels at `l - 1` go back to zero and carry.
spec fn odometer_step(ds: Seq<int>, l: int) -> Seq<int>
    decreases ds.len(),
{
    if ds.len() == 0 {
        ds
    } else if ds[0] + 1 == l {
        seq![0int] + odometer_step(ds.drop_first(), l)
    } else {
        ds.update(0, ds[0] + 1)
    }
}

/// Wheels at `l - 1` before place `i` go back to zero, and the turn goes on
/// from place `i`.
proof fn lemma_step_prefix(ds: Seq<int>, l: int, i: int)
    requires
        0 <= i <= ds.len(),
        forall|j: int| 0 <= j < i ==> ds[j] + 1 == l,
    ensures
        odometer_step(ds, l) == Seq::new(i as nat, |j: int| 0int) + odometer_step(ds.skip(i), l),
    decreases i,
{
    if i == 0 {
        assert(ds.skip(0) =~= ds);
        assert(Seq::new(0, |j: int| 0int) + odometer_step(ds, l) =~= odometer_step(ds, l));
    } else {
        let rest = ds.drop_first();
        assert forall|j: int| 0 <= j < i - 1 implies rest[j] + 1 == l by {
            assert(rest[j] == ds[j + 1]);
        }
        lemma_step_prefix(rest, l, i - 1);
        assert(rest.skip(i - 1) =~= ds.skip(i));
        assert(seq![0int] + (Seq::new((i - 1) as nat, |j: int| 0int) + odometer_step(ds.skip(i), l)) =~= Seq::new(
            i as nat,
            |j: int| 0int,
        ) + odometer_step(ds.skip(i), l));
    }
}

/// The digits of zero are all zero.
proof fn lemma_digits_zero(l: int, dim: nat)
    requires
        l >= 1,
    ensures
        digits(0, l, dim) == Seq::new(dim, |j: int| 0int),
    decreases dim,
{
    if dim > 0 {
        lemma_digits_zero(l, (dim - 1) as nat);
        vstd::arithmetic::div_mod::lemma_fundamental_div_mod_converse(0, l, 0, 0);
        assert(digits(0, l, dim) =~= Seq::new(dim, |j: int| 0int));
    }
}

/// Every digit is a position of a wheel.
proof fn lemma_digits_range(x: int, l: int, dim: nat)
    requires
        l >= 1,
        x >= 0,
    ensures
        digits(x, l, dim).len() == dim,
        forall|j: int| 0 <= j < dim ==> 0 <= #[trigger] digits(x, l, dim)[j] < l,
    decreases dim,
{
    if dim > 0 {
        vstd::arithmetic::div_mod::lemma_div_pos_is_pos(x, l);
        lemma_digits_range(x / l, l, (dim - 1) as nat);
        assert forall|j: int| 0 <= j < dim implies 0 <= #[trigger] digits(x, l, dim)[j] < l by {
            if j > 0 {
                assert(digits(x, l, dim)[j] == digits(x / l, l, (dim - 1) as nat)[j - 1]);
            }
        }
    }
}

/// The digits of the next number are one turn of the odometer further.
proof fn lemma_digits_step(x: int, l: int, dim: nat)
    requires
        l >= 1,
        x >= 0,
        x + 1 < power(l, dim),
    ensures
        digits(x + 1, l, dim) == odometer_step(digits(x, l, dim), l),
    decreases dim,
{
    let q = x / l;
    let r = x % l;
    vstd::arithmetic::div_mod::lemma_fundamental_div_mod(x, l);
    vstd::arithmetic::div_mod::lemma_div_pos_is_pos(x, l);
    assert(x == l * q + r);
    assert(0 <= r < l);
    assert(dim > 0);
    let rest = digits(x, l, dim).drop_first();
    assert(rest =~= digits(q, l, (dim - 1) as nat));
    if r + 1 < l {
        vstd::arithmetic::div_mod::lemma_fundamental_div_mod_converse(x + 1, l, q, r + 1);
        assert(digits(x + 1, l, dim) =~= digits(x, l, dim).update(0, r + 1));
    } else {
        assert(x + 1 == (q + 1) * l + 0) by (nonlinear_arith)
            requires
                x == l * q + r,
                r + 1 == l,
        ;
        vstd::arithmetic::div_mod::lemma_fundamental_div_mod_converse(x + 1, l, q + 1, 0);
        let pl = power(l, (dim - 1) as nat);
        assert(q + 1 < pl) by (nonlinear_arith)
            requires
                x + 1 == (q + 1) * l,
                x + 1 < l * pl,
                l >= 1,
        ;
        lemma_digits_step(q, l, (dim - 1) as nat);
    }
}

proof fn lemma_power_grows(l: int, k: nat, e: nat)
    requires
        l >= 1,
        k <= e,
    ensures
        1 <= power(l, k) <= power(l, e),
    decreases e,
{
    if e > 0 {
        if k == e {
            lemma_power_grows(l, (k - 1) as nat, (e - 1) as nat);
        } else {
            lemma_power_grows(l, k, (e - 1) as nat);
        }
        let p = power(l, (e - 1) as nat);
        assert(p <= l * p) by (nonlinear_arith)
            requires
                l >= 1,
                p >= 1,
        ;
    }
}

/* # divisors */

/// The divisors up to `k` are at most as many as those up to `m >= k`,
/// and at most `k`.
proof fn lemma_divisors_upto_grow(n: int, k: int, m: int)
    requires
        0 <= k <= m,
    ensures
        divisors_upto(n, k).len() <= divisors_upto(n, m).len(),
        divisors_upto(n, k).len() <= k,
    decreases m,
{
    if m > 0 {
        if k == m {
            lemma_divisors_upto_grow(n, k - 1, m - 1);
        } else {
            lemma_divisors_upto_grow(n, k, m - 1);
        }
    }
}

/// Where there are as many divisors up to `k` as up to `m >= k`, there is
/// none between, and the two lists agree.
proof fn lemma_divisors_upto_same_len(n: int, k: int, m: int)
    requires
        0 <= k <= m,
        divisors_upto(n, k).len() == divisors_upto(n, m).len(),
    ensures
        divisors_upto(n, k) == divisors_upto(n, m),
    decreases m,
{
    if k < m {
        lemma_divisors_upto_grow(n, k, m - 1);
        if n % m == 0 {
            assert(false);
        }
        lemma_divisors_upto_same_len(n, k, m - 1);
    }
}

/// One divides every positive number, so it has a divisor.
proof fn lemma_divisors_upto_first(n: int)
    requires
        n > 0,
    ensures
        spec_divisors(n).len() >= 1,
{
    reveal_with_fuel(divisors_upto, 2);
    lemma_divisors_upto_grow(n, 1, n);
}

} // verus!
