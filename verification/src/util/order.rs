//! Orders used by the sorted containers: values ranked by an integer, and
//! byte strings compared lexicographically.
use vstd::prelude::*;
use vstd::string::StringSliceAdditionalSpecFns;
use crate::rmodule::ring::Fin;

verus! {

/// A value that is ordered, and identified, by an integer rank.
pub trait Ranked: Copy + Sized {
    /// The rank; values of equal rank are equal.
    spec fn rank(&self) -> int;

    fn rank_lt(&self, other: &Self) -> (b: bool)
        ensures
            b <==> self.rank() < other.rank(),
    ;

    fn rank_eq(&self, other: &Self) -> (b: bool)
        ensures
            b <==> self.rank() == other.rank(),
    ;

    proof fn lemma_rank_injective(a: Self, b: Self)
        requires
            a.rank() == b.rank(),
        ensures
            a == b,
    ;
}

impl Ranked for i8 {
    open spec fn rank(&self) -> int {
        *self as int
    }

    fn rank_lt(&self, other: &Self) -> (b: bool) {
        *self < *other
    }

    fn rank_eq(&self, other: &Self) -> (b: bool) {
        *self == *other
    }

    proof fn lemma_rank_injective(a: Self, b: Self) {
    }
}

impl Ranked for u8 {
    open spec fn rank(&self) -> int {
        *self as int
    }

    fn rank_lt(&self, other: &Self) -> (b: bool) {
        *self < *other
    }

    fn rank_eq(&self, other: &Self) -> (b: bool) {
        *self == *other
    }

    proof fn lemma_rank_injective(a: Self, b: Self) {
    }
}

impl Ranked for u16 {
    open spec fn rank(&self) -> int {
        *self as int
    }

    fn rank_lt(&self, other: &Self) -> (b: bool) {
        *self < *other
    }

    fn rank_eq(&self, other: &Self) -> (b: bool) {
        *self == *other
    }

    proof fn lemma_rank_injective(a: Self, b: Self) {
    }
}

/// Elements of Z/N are ranked by their representative in `1..=N`.
impl<const N: u16> Ranked for Fin<N> {
    open spec fn rank(&self) -> int {
        self.raw()
    }

    fn rank_lt(&self, other: &Self) -> (b: bool) {
        self.get() < other.get()
    }

    fn rank_eq(&self, other: &Self) -> (b: bool) {
        self.get() == other.get()
    }

    proof fn lemma_rank_injective(a: Self, b: Self) {
        Fin::<N>::lemma_raw_injective(a, b);
    }
}

/* # byte strings */

/// `a` comes strictly before `b` in lexicographic order (a proper prefix
/// comes first), as `str` is ordered.
pub open spec fn bytes_lt(a: Seq<u8>, b: Seq<u8>) -> bool
    decreases a.len(),
{
    if b.len() == 0 {
        false
    } else if a.len() == 0 {
        true
    } else if a[0] != b[0] {
        a[0] < b[0]
    } else {
        bytes_lt(a.drop_first(), b.drop_first())
    }
}

/// Lexicographic order is a strict order.
pub proof fn lemma_bytes_lt_irreflexive(a: Seq<u8>)
    ensures
        !bytes_lt(a, a),
    decreases a.len(),
{
    if a.len() > 0 {
        lemma_bytes_lt_irreflexive(a.drop_first());
    }
}

pub proof fn lemma_bytes_lt_asymmetric(a: Seq<u8>, b: Seq<u8>)
    ensures
        !(bytes_lt(a, b) && bytes_lt(b, a)),
    decreases a.len(),
{
    if a.len() > 0 && b.len() > 0 && a[0] == b[0] {
        lemma_bytes_lt_asymmetric(a.drop_first(), b.drop_first());
    }
}

pub proof fn lemma_bytes_lt_transitive(a: Seq<u8>, b: Seq<u8>, c: Seq<u8>)
    requires
        bytes_lt(a, b),
        bytes_lt(b, c),
    ensures
        bytes_lt(a, c),
    decreases a.len(),
{
    if a.len() > 0 && b.len() > 0 && c.len() > 0 && a[0] == b[0] && b[0] == c[0] {
        lemma_bytes_lt_transitive(a.drop_first(), b.drop_first(), c.drop_first());
    }
}

/// Two byte strings are equal or one comes before the other.
pub proof fn lemma_bytes_lt_total(a: Seq<u8>, b: Seq<u8>)
    ensures
        a == b || bytes_lt(a, b) || bytes_lt(b, a),
    decreases a.len(),
{
    if a.len() > 0 && b.len() > 0 {
        if a[0] == b[0] {
            lemma_bytes_lt_total(a.drop_first(), b.drop_first());
            if a.drop_first() == b.drop_first() {
                assert(a =~= seq![a[0]] + a.drop_first());
                assert(b =~= seq![b[0]] + b.drop_first());
            }
        }
    } else if a.len() == 0 && b.len() == 0 {
        assert(a =~= b);
    }
}

/// Compares two strings byte by byte: -1, 0 or 1 as `a` comes before, is
/// equal to, or comes after `b`.
pub fn compare_strs(a: &str, b: &str) -> (c: i8)
    ensures
        c == -1 <==> bytes_lt(a.spec_bytes(), b.spec_bytes()),
        c == 0 <==> a.spec_bytes() == b.spec_bytes(),
        c == 1 <==> bytes_lt(b.spec_bytes(), a.spec_bytes()),
{
    let x = a.as_bytes();
    let y = b.as_bytes();
    let ghost sa = a.spec_bytes();
    let ghost sb = b.spec_bytes();
    let mut i: usize = 0;
    assert(sa.skip(0) =~= sa);
    assert(sb.skip(0) =~= sb);
    while i < x.len() && i < y.len()
        invariant
            sa == a.spec_bytes(),
            sb == b.spec_bytes(),
            x@ == sa,
            y@ == sb,
            i <= sa.len(),
            i <= sb.len(),
            sa.take(i as int) == sb.take(i as int),
            bytes_lt(sa, sb) == bytes_lt(sa.skip(i as int), sb.skip(i as int)),
            bytes_lt(sb, sa) == bytes_lt(sb.skip(i as int), sa.skip(i as int)),
        decreases sa.len() - i,
    {
        if x[i] != y[i] {
            proof {
                assert(sa.skip(i as int)[0] == sa[i as int]);
                assert(sb.skip(i as int)[0] == sb[i as int]);
                assert(sa.skip(i as int).len() > 0 && sb.skip(i as int).len() > 0);
                assert(bytes_lt(sa.skip(i as int), sb.skip(i as int)) == (sa[i as int] < sb[i as int]));
                assert(bytes_lt(sb.skip(i as int), sa.skip(i as int)) == (sb[i as int] < sa[i as int]));
                lemma_bytes_lt_asymmetric(sa, sb);
                if sa == sb {
                    assert(sa[i as int] == sb[i as int]);
                }
            }
            if x[i] < y[i] {
                return -1;
            } else {
                return 1;
            }
        }
        proof {
            assert(sa.skip(i as int).drop_first() =~= sa.skip(i + 1));
            assert(sb.skip(i as int).drop_first() =~= sb.skip(i + 1));
            assert(sa.take(i + 1) =~= sa.take(i as int).push(sa[i as int]));
            assert(sb.take(i + 1) =~= sb.take(i as int).push(sb[i as int]));
        }
        i = i + 1;
    }
    proof {
        lemma_bytes_lt_total(sa, sb);
        if i == sa.len() && i == sb.len() {
            assert(sa =~= sa.take(i as int));
            assert(sb =~= sb.take(i as int));
        } else if sa == sb {
            assert(false);
        }
    }
    if x.len() == y.len() {
        0
    } else if x.len() < y.len() {
        -1
    } else {
        1
    }
}

} // verus!
