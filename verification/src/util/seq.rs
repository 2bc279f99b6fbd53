use vstd::prelude::*;

verus! {

/// `x` clamped to `0..=len`.
pub open spec fn clamp(x: int, len: int) -> int {
    if x < 0 {
        0
    } else if x > len {
        len
    } else {
        x
    }
}

/// The entries of `e` at positions `lo .. hi`, as far as `e` holds them.
pub open spec fn clipped<T>(e: Seq<T>, lo: int, hi: int) -> Seq<T> {
    e.subrange(clamp(lo, e.len() as int), clamp(if hi < lo { lo } else { hi }, e.len() as int))
}

/// The entries of `e` at `start`, `start + step`, ... : at most `count` of
/// them, stopping at the first position that `e` does not hold.
pub open spec fn strided<T>(e: Seq<T>, start: int, step: int, count: int) -> Seq<T>
    decreases count,
{
    if count <= 0 || start < 0 || start >= e.len() {
        Seq::empty()
    } else {
        seq![e[start]] + strided(e, start + step, step, count - 1)
    }
}

/// The entries of `strided(e, start, step, count)`: the `j`-th is at
/// `start + j * step`, inside `e`; there are `count` of them unless the next
/// position leaves `e`.
pub proof fn lemma_strided_props<T>(e: Seq<T>, start: int, step: int, count: int)
    requires
        0 <= start,
        step > 0,
        0 <= count,
    ensures
        strided(e, start, step, count).len() <= count,
        strided(e, start, step, count).len() < count ==> start + strided(e, start, step, count).len() * step >= e.len(),
        forall|j: int|
            0 <= j < strided(e, start, step, count).len() ==> #[trigger] strided(e, start, step, count)[j] == e[start + j * step]
                && start + j * step < e.len(),
    decreases count,
{
    if count > 0 && start < e.len() {
        lemma_strided_props(e, start + step, step, count - 1);
        let rest = strided(e, start + step, step, count - 1);
        assert forall|j: int| 0 <= j < strided(e, start, step, count).len() implies #[trigger] strided(e, start, step, count)[j] == e[start + j * step]
            && start + j * step < e.len() by {
            if j > 0 {
                assert(rest[j - 1] == e[start + step + (j - 1) * step]);
                vstd::arithmetic::mul::lemma_mul_is_distributive_add_other_way(step, j - 1, 1);
            }
        }
        if rest.len() < count - 1 {
            vstd::arithmetic::mul::lemma_mul_is_distributive_add_other_way(step, rest.len() as int, 1);
        }
    }
}

/// The concatenation of the given vectors.
pub fn concat<T>(parts: Vec<Vec<T>>) -> (v: Vec<T>)
    ensures
        v@ == parts@.map_values(|p: Vec<T>| p@).flatten(),
{
    let mut parts = parts;
    let ghost all = parts@.map_values(|p: Vec<T>| p@);
    let ghost mut done: Seq<Seq<T>> = Seq::empty();
    let mut v: Vec<T> = Vec::new();
    proof {
        assert(done + parts@.map_values(|p: Vec<T>| p@) =~= all);
    }
    while parts.len() > 0
        invariant
            done + parts@.map_values(|p: Vec<T>| p@) == all,
            v@ == done.flatten(),
        decreases parts.len(),
    {
        let ghost before = parts@;
        let mut p = parts.remove(0);
        proof {
            assert(before.map_values(|p: Vec<T>| p@) =~= seq![p@] + parts@.map_values(|p: Vec<T>| p@));
            done.lemma_flatten_push(p@);
            assert(done.push(p@) + parts@.map_values(|p: Vec<T>| p@) =~= all);
            done = done.push(p@);
        }
        v.append(&mut p);
    }
    proof {
        assert(done =~= all);
    }
    v
}

/// A copy of the entries at positions `start .. end`, as far as `v` holds them.
pub fn copy_range<T: Copy>(v: &Vec<T>, start: usize, end: usize) -> (r: Vec<T>)
    ensures
        r@ == clipped(v@, start as int, end as int),
{
    let len = v.len();
    let lo = if start > len { len } else { start };
    let hi0 = if end < start { start } else { end };
    let hi = if hi0 > len { len } else { hi0 };
    let mut r: Vec<T> = Vec::new();
    let mut i = lo;
    while i < hi
        invariant
            lo <= i <= hi,
            hi <= len == v@.len(),
            r@ == v@.subrange(lo as int, i as int),
        decreases hi - i,
    {
        r.push(v[i]);
        proof {
            assert(r@ =~= v@.subrange(lo as int, i + 1));
        }
        i = i + 1;
    }
    r
}

/// A copy of the entries at `start`, `start + step`, ...: at most `count` of
/// them, stopping at the first position that `v` does not hold.
pub fn copy_strided<T: Copy>(v: &Vec<T>, start: usize, step: usize, count: usize) -> (r: Vec<T>)
    requires
        step <= u8::MAX,
    ensures
        r@ == strided(v@, start as int, step as int, count as int),
{
    let len = v.len();
    let mut r: Vec<T> = Vec::new();
    let mut idx = start;
    let mut k: usize = 0;
    while k < count && idx < len
        invariant
            k <= count,
            len == v@.len(),
            step <= u8::MAX,
            r@ + strided(v@, idx as int, step as int, (count - k) as int) == strided(v@, start as int, step as int, count as int),
        decreases count - k,
    {
        proof {
            assert(r@.push(v@[idx as int]) + strided(v@, idx + step, step as int, (count - k - 1) as int)
                =~= r@ + strided(v@, idx as int, step as int, (count - k) as int));
            if len - idx <= step {
                assert(strided(v@, idx + step, step as int, (count - k - 1) as int) =~= strided(v@, len as int, step as int, (count - k - 1) as int));
            }
        }
        r.push(v[idx]);
        idx = if len - idx <= step { len } else { idx + step };
        k = k + 1;
    }
    proof {
        assert(r@ =~= r@ + strided(v@, idx as int, step as int, (count - k) as int));
    }
    r
}

/// Sequences of one length `w`, one after the other: the `j`-th entry of
/// the `i`-th stands at `i * w + j`.
pub proof fn lemma_flatten_uniform<T>(ss: Seq<Seq<T>>, w: int)
    requires
        0 <= w,
        forall|i: int| 0 <= i < ss.len() ==> (#[trigger] ss[i]).len() == w,
    ensures
        ss.flatten().len() == ss.len() * w,
        forall|i: int, j: int| 0 <= i < ss.len() && 0 <= j < w ==> ss.flatten()[i * w + j] == #[trigger] ss[i][j],
    decreases ss.len(),
{
    if ss.len() > 0 {
        let init = ss.drop_last();
        lemma_flatten_uniform(init, w);
        init.lemma_flatten_push(ss.last());
        assert(init.push(ss.last()) =~= ss);
        let n = init.len() as int;
        vstd::arithmetic::mul::lemma_mul_is_distributive_add_other_way(w, n, 1);
        assert forall|i: int, j: int| 0 <= i < ss.len() && 0 <= j < w implies ss.flatten()[i * w + j] == #[trigger] ss[i][j] by {
            if i < n {
                vstd::arithmetic::mul::lemma_mul_inequality(i + 1, n, w);
                vstd::arithmetic::mul::lemma_mul_is_distributive_add_other_way(w, i, 1);
                assert(init[i] == ss[i]);
            }
        }
    }
}

} // verus!
