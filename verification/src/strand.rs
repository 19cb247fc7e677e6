//! The mathematics of common strands of bytes.
//!
//! A strand common to `a` and `b` is a pair of positions `x`, `y` and a
//! length `k` such that `a[x..x+k] == b[y..y+k]`.  The searches of this crate
//! are specified through `first_longest`: the longest common strand, and among
//! all strands of that length the one whose start positions come first.
use vstd::prelude::*;

verus! {

/// `a[x..x+k]` and `b[y..y+k]` are both in bounds and hold the same bytes.
pub open spec fn common_at(a: Seq<u8>, b: Seq<u8>, x: int, y: int, k: int) -> bool {
    &&& 0 <= k
    &&& 0 <= x
    &&& x + k <= a.len()
    &&& 0 <= y
    &&& y + k <= b.len()
    &&& a.subrange(x, x + k) == b.subrange(y, y + k)
}

/// The order in which start positions are visited: by the first position,
/// then by the second.
pub open spec fn before(x1: int, y1: int, x2: int, y2: int) -> bool {
    x1 < x2 || (x1 == x2 && y1 < y2)
}

/// `len` is the length of a longest strand common to `a` and `b`, and
/// `(s1, s2)` are the start positions of the first such strand in the order
/// `before`.  When `a` and `b` have no byte in common this is `(0, 0, 0)`.
pub open spec fn first_longest(a: Seq<u8>, b: Seq<u8>, len: int, s1: int, s2: int) -> bool {
    &&& common_at(a, b, s1, s2, len)
    &&& forall|x: int, y: int, k: int| #[trigger] common_at(a, b, x, y, k) ==> k <= len
    &&& forall|x: int, y: int| #[trigger] before(x, y, s1, s2) ==> !common_at(a, b, x, y, len)
}

/// Length of the longest common prefix of `a[x..]` and `b[y..]`.
pub open spec fn lcp(a: Seq<u8>, b: Seq<u8>, x: int, y: int) -> nat
    decreases a.len() - x,
{
    if 0 <= x < a.len() && 0 <= y < b.len() && a[x] == b[y] {
        1 + lcp(a, b, x + 1, y + 1)
    } else {
        0
    }
}

/// Length of the longest common suffix of `a[..x]` and `b[..y]`.
pub open spec fn lcs(a: Seq<u8>, b: Seq<u8>, x: int, y: int) -> nat
    decreases x,
{
    if 0 < x <= a.len() && 0 < y <= b.len() && a[x - 1] == b[y - 1] {
        1 + lcs(a, b, x - 1, y - 1)
    } else {
        0
    }
}

/// A common prefix never runs past the end of either sequence.
pub proof fn lemma_lcp_bounds(a: Seq<u8>, b: Seq<u8>, x: int, y: int)
    requires
        0 <= x <= a.len(),
        0 <= y <= b.len(),
    ensures
        x + lcp(a, b, x, y) <= a.len(),
        y + lcp(a, b, x, y) <= b.len(),
    decreases a.len() - x,
{
    if 0 <= x < a.len() && 0 <= y < b.len() && a[x] == b[y] {
        lemma_lcp_bounds(a, b, x + 1, y + 1);
    }
}

/// A common suffix never runs past the start of either sequence.
pub proof fn lemma_lcs_bounds(a: Seq<u8>, b: Seq<u8>, x: int, y: int)
    requires
        0 <= x,
        0 <= y,
    ensures
        lcs(a, b, x, y) <= x,
        lcs(a, b, x, y) <= y,
    decreases x,
{
    if 0 < x <= a.len() && 0 < y <= b.len() && a[x - 1] == b[y - 1] {
        lemma_lcs_bounds(a, b, x - 1, y - 1);
    }
}

/// A common strand of length `k` starts at `(x, y)` exactly when the common
/// prefix there is at least `k` long.
pub proof fn lemma_common_iff_lcp(a: Seq<u8>, b: Seq<u8>, x: int, y: int, k: int)
    requires
        0 <= k,
        0 <= x,
        x + k <= a.len(),
        0 <= y,
        y + k <= b.len(),
    ensures
        common_at(a, b, x, y, k) <==> k <= lcp(a, b, x, y),
    decreases k,
{
    if k == 0 {
        assert(a.subrange(x, x) =~= b.subrange(y, y));
    } else {
        lemma_common_iff_lcp(a, b, x + 1, y + 1, k - 1);
        let sa = a.subrange(x, x + k);
        let sb = b.subrange(y, y + k);
        assert(sa.drop_first() =~= a.subrange(x + 1, x + k));
        assert(sb.drop_first() =~= b.subrange(y + 1, y + k));
        if sa == sb {
            assert(sa[0] == sb[0]);
        } else if a[x] == b[y] && k - 1 <= lcp(a, b, x + 1, y + 1) {
            assert(sa =~= sb) by {
                assert forall|i: int| 0 <= i < k implies sa[i] == sb[i] by {
                    if i > 0 {
                        assert(sa[i] == sa.drop_first()[i - 1]);
                        assert(sb[i] == sb.drop_first()[i - 1]);
                    }
                }
            }
        }
    }
}

/// A common strand of length `k` ends at `(x, y)` exactly when the common
/// suffix there is at least `k` long.
pub proof fn lemma_common_iff_lcs(a: Seq<u8>, b: Seq<u8>, x: int, y: int, k: int)
    requires
        0 <= k <= x <= a.len(),
        k <= y <= b.len(),
    ensures
        common_at(a, b, x - k, y - k, k) <==> k <= lcs(a, b, x, y),
    decreases k,
{
    if k == 0 {
        assert(a.subrange(x, x) =~= b.subrange(y, y));
    } else {
        lemma_common_iff_lcs(a, b, x - 1, y - 1, k - 1);
        let sa = a.subrange(x - k, x);
        let sb = b.subrange(y - k, y);
        assert(sa.drop_last() =~= a.subrange(x - k, x - 1));
        assert(sb.drop_last() =~= b.subrange(y - k, y - 1));
        if sa == sb {
            assert(sa[k - 1] == sb[k - 1]);
        } else if a[x - 1] == b[y - 1] && k - 1 <= lcs(a, b, x - 1, y - 1) {
            assert(sa =~= sb) by {
                assert forall|i: int| 0 <= i < k implies sa[i] == sb[i] by {
                    if i < k - 1 {
                        assert(sa[i] == sa.drop_last()[i]);
                        assert(sb[i] == sb.drop_last()[i]);
                    }
                }
            }
        }
    }
}

/// No two distinct results meet `first_longest`: the longest common strand
/// and its first position are determined by the two byte sequences alone.
pub proof fn lemma_first_longest_unique(
    a: Seq<u8>,
    b: Seq<u8>,
    len1: int,
    s1: int,
    t1: int,
    len2: int,
    s2: int,
    t2: int,
)
    requires
        first_longest(a, b, len1, s1, t1),
        first_longest(a, b, len2, s2, t2),
    ensures
        len1 == len2,
        s1 == s2,
        t1 == t2,
{
    assert(common_at(a, b, s1, t1, len1));
    assert(common_at(a, b, s2, t2, len2));
    if before(s1, t1, s2, t2) {
        assert(!common_at(a, b, s1, t1, len2));
    }
    if before(s2, t2, s1, t1) {
        assert(!common_at(a, b, s2, t2, len1));
    }
}

/// The length of the longest common strand does not depend on which file
/// comes first (its positions may).
pub proof fn lemma_longest_length_symmetric(
    a: Seq<u8>,
    b: Seq<u8>,
    len1: int,
    s1: int,
    t1: int,
    len2: int,
    s2: int,
    t2: int,
)
    requires
        first_longest(a, b, len1, s1, t1),
        first_longest(b, a, len2, s2, t2),
    ensures
        len1 == len2,
{
    assert(common_at(b, a, t1, s1, len1));
    assert(common_at(a, b, t2, s2, len2));
}

} // verus!
