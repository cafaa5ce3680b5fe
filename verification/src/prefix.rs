//! Sequences of numbers read as sequences of integers, and the length of
//! what two of them have in common at their start.

use vstd::prelude::*;

verus! {

/// Weights as integers.
pub open spec fn ints_of_u16(s: Seq<u16>) -> Seq<int> {
    s.map_values(|x: u16| x as int)
}

/// Codepoints as integers.
pub open spec fn ints_of_u32(s: Seq<u32>) -> Seq<int> {
    s.map_values(|x: u32| x as int)
}

/// Number of leading places at which the two sequences agree.
pub open spec fn common_prefix_len(a: Seq<int>, b: Seq<int>) -> int
    decreases a.len(),
{
    if a.len() == 0 || b.len() == 0 || a[0] != b[0] {
        0
    } else {
        1 + common_prefix_len(a.drop_first(), b.drop_first())
    }
}

/// The common prefix ends where the sequences first differ, or where the
/// shorter one ends.
pub proof fn lemma_common_prefix(a: Seq<int>, b: Seq<int>, n: int)
    requires
        0 <= n <= a.len(),
        n <= b.len(),
        forall|i: int| 0 <= i < n ==> a[i] == b[i],
        n == a.len() || n == b.len() || a[n] != b[n],
    ensures
        common_prefix_len(a, b) == n,
    decreases a.len(),
{
    if n > 0 {
        let a1 = a.drop_first();
        let b1 = b.drop_first();
        assert forall|i: int| 0 <= i < n - 1 implies a1[i] == b1[i] by {
            assert(a[i + 1] == b[i + 1]);
        }
        lemma_common_prefix(a1, b1, n - 1);
    }
}

/// A sequence has all of itself in common with itself.
pub proof fn lemma_common_prefix_same(a: Seq<int>)
    ensures
        common_prefix_len(a, a) == a.len(),
{
    lemma_common_prefix(a, a, a.len() as int);
}

/// Where two sequences are equal, their common prefix is all of both; and
/// the other way round.
pub proof fn lemma_common_prefix_equal(a: Seq<int>, b: Seq<int>)
    ensures
        0 <= common_prefix_len(a, b) <= a.len(),
        common_prefix_len(a, b) <= b.len(),
        (common_prefix_len(a, b) == a.len() && a.len() == b.len()) <==> a == b,
    decreases a.len(),
{
    if a.len() == 0 || b.len() == 0 || a[0] != b[0] {
        if a.len() == 0 && b.len() == 0 {
            assert(a =~= b);
        }
    } else {
        lemma_common_prefix_equal(a.drop_first(), b.drop_first());
        if a.drop_first() == b.drop_first() {
            assert(a =~= seq![a[0]] + a.drop_first());
            assert(b =~= seq![b[0]] + b.drop_first());
        }
    }
}

/// Number of leading weights at which two keys agree.
pub fn common_prefix_u16(a: &Vec<u16>, b: &Vec<u16>) -> (n: usize)
    ensures
        n == common_prefix_len(ints_of_u16(a@), ints_of_u16(b@)),
        n <= a.len(),
        n <= b.len(),
{
    let mut n: usize = 0;
    while n < a.len() && n < b.len() && a[n] == b[n]
        invariant
            n <= a.len(),
            n <= b.len(),
            forall|i: int| 0 <= i < n ==> a@[i] == b@[i],
        decreases a.len() - n,
    {
        n += 1;
    }
    proof {
        lemma_common_prefix(ints_of_u16(a@), ints_of_u16(b@), n as int);
    }
    n
}

/// Number of leading codepoints at which two sequences agree.
pub fn common_prefix_u32(a: &Vec<u32>, b: &Vec<u32>) -> (n: usize)
    ensures
        n == common_prefix_len(ints_of_u32(a@), ints_of_u32(b@)),
        n <= a.len(),
        n <= b.len(),
{
    let mut n: usize = 0;
    while n < a.len() && n < b.len() && a[n] == b[n]
        invariant
            n <= a.len(),
            n <= b.len(),
            forall|i: int| 0 <= i < n ==> a@[i] == b@[i],
        decreases a.len() - n,
    {
        n += 1;
    }
    proof {
        lemma_common_prefix(ints_of_u32(a@), ints_of_u32(b@), n as int);
    }
    n
}

} // verus!
