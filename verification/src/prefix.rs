//! Longest common prefixes of integer sequences.

use vstd::prelude::*;

verus! {

/// Length of the longest prefix that `a` and `b` share.
pub open spec fn common_prefix_len(a: Seq<u32>, b: Seq<u32>) -> nat
    decreases a.len(),
{
    if a.len() > 0 && b.len() > 0 && a[0] == b[0] {
        1 + common_prefix_len(a.drop_first(), b.drop_first())
    } else {
        0
    }
}

/// `n` elements from the front of `a` and of `b` are the same.
pub open spec fn agree(a: Seq<u32>, b: Seq<u32>, n: nat) -> bool {
    &&& n <= a.len()
    &&& n <= b.len()
    &&& forall|i: int| 0 <= i < n ==> a[i] == b[i]
}

/// `a` and `b` part at `n`: one of them ends there, or they differ there.
pub open spec fn part_at(a: Seq<u32>, b: Seq<u32>, n: nat) -> bool {
    n < a.len() && n < b.len() ==> a[n as int] != b[n as int]
}

/// The two sequences agree up to their common prefix length, and part there.
pub proof fn lemma_common_prefix_len(a: Seq<u32>, b: Seq<u32>)
    ensures
        agree(a, b, common_prefix_len(a, b)),
        part_at(a, b, common_prefix_len(a, b)),
    decreases a.len(),
{
    if a.len() > 0 && b.len() > 0 && a[0] == b[0] {
        lemma_common_prefix_len(a.drop_first(), b.drop_first());
        let n = common_prefix_len(a.drop_first(), b.drop_first()) as int;
        assert forall|i: int| 0 <= i < n + 1 implies a[i] == b[i] by {
            if i > 0 {
                assert(a.drop_first()[i - 1] == a[i]);
                assert(b.drop_first()[i - 1] == b[i]);
            }
        }
        if n + 1 < a.len() && n + 1 < b.len() {
            assert(a.drop_first()[n] == a[n + 1]);
            assert(b.drop_first()[n] == b[n + 1]);
        }
    }
}

/// The common prefix length is the only length up to which two sequences
/// agree and at which they part.
pub proof fn lemma_common_prefix_len_unique(a: Seq<u32>, b: Seq<u32>, n: nat)
    requires
        agree(a, b, n),
        part_at(a, b, n),
    ensures
        common_prefix_len(a, b) == n,
{
    lemma_common_prefix_len(a, b);
}

/// `q` is a prefix of `key`.
pub open spec fn is_prefix(q: Seq<u32>, key: Seq<u32>) -> bool {
    agree(q, key, q.len())
}

/// The common prefix length does not depend on the order of the two.
pub proof fn lemma_common_prefix_len_symmetric(a: Seq<u32>, b: Seq<u32>)
    ensures
        common_prefix_len(a, b) == common_prefix_len(b, a),
{
    lemma_common_prefix_len(b, a);
    lemma_common_prefix_len_unique(a, b, common_prefix_len(b, a));
}

/// A sequence is a prefix of another exactly when the two share all of it.
pub proof fn lemma_is_prefix(q: Seq<u32>, key: Seq<u32>)
    ensures
        is_prefix(q, key) <==> common_prefix_len(q, key) == q.len(),
{
    lemma_common_prefix_len(q, key);
}

/// Cutting one sequence short caps the common prefix at the cut.
pub proof fn lemma_common_prefix_len_take(a: Seq<u32>, b: Seq<u32>, p: int)
    requires
        0 <= p <= a.len(),
    ensures
        common_prefix_len(a.take(p), b) == if common_prefix_len(a, b) <= p {
            common_prefix_len(a, b)
        } else {
            p as nat
        },
{
    lemma_common_prefix_len(a, b);
    let n = common_prefix_len(a, b);
    let m = if n <= p { n } else { p as nat };
    lemma_common_prefix_len_unique(a.take(p), b, m);
}

/// Dropping a shared front from both sequences takes it off the common prefix.
pub proof fn lemma_common_prefix_len_skip(a: Seq<u32>, b: Seq<u32>, p: int)
    requires
        0 <= p <= common_prefix_len(a, b),
    ensures
        common_prefix_len(a.skip(p), b.skip(p)) == common_prefix_len(a, b) - p,
{
    lemma_common_prefix_len(a, b);
    let n = common_prefix_len(a, b);
    lemma_common_prefix_len_unique(a.skip(p), b.skip(p), (n - p) as nat);
}

/// Counts the leading elements that `a` and `b` have in common.
pub fn common_prefix(a: &[u32], b: &[u32]) -> (n: usize)
    ensures
        n == common_prefix_len(a@, b@),
        agree(a@, b@, n as nat),
        part_at(a@, b@, n as nat),
{
    let mut n: usize = 0;
    while n < a.len() && n < b.len() && a[n] == b[n]
        invariant
            agree(a@, b@, n as nat),
        decreases a.len() - n,
    {
        n += 1;
    }
    proof {
        lemma_common_prefix_len_unique(a@, b@, n as nat);
    }
    n
}

} // verus!
