//! Finds the longest strand of bytes that two files have in common.
pub mod reader;
pub mod strand;
pub mod suffix_tree;
pub mod locate;
pub mod ukkonen;

use vstd::prelude::*;
use crate::reader::ParsedFile;
use crate::locate::{search_for_in, target_of, SearchFor};
use crate::suffix_tree::{is_strand_of, occurs_at, SuffixTree};
use crate::strand::{
    before, common_at, first_longest, lcp, lcs, lemma_common_iff_lcp, lemma_common_iff_lcs,
    lemma_lcp_bounds, lemma_lcs_bounds,
};

verus! {

/// A file name and a position in that file.
#[derive(Debug)]
struct FileLocation {
    file_name: String,
    offset: usize,
}

impl FileLocation {
    pub closed spec fn name_view(&self) -> Seq<char> {
        self.file_name@
    }

    pub closed spec fn offset_view(&self) -> usize {
        self.offset
    }

    /// The start of the named file.
    pub fn new(filename: &str) -> (l: FileLocation)
        ensures
            l.name_view() == filename@,
            l.offset_view() == 0,
    {
        FileLocation { file_name: String::from_str(filename), offset: 0 }
    }

    pub fn set_offset(&mut self, offset: usize)
        ensures
            final(self).name_view() == old(self).name_view(),
            final(self).offset_view() == offset,
    {
        self.offset = offset;
    }

    pub fn offset(&self) -> (o: usize)
        ensures
            o == self.offset_view(),
    {
        self.offset
    }
}

/// The outcome of comparing two files: the names of the two files, the
/// length of the common strand found, and where it starts in each file.
#[derive(Debug)]
pub struct SearchResult {
    file1: String,
    start1: usize,
    file2: String,
    start2: usize,
    length: usize,
}

impl SearchResult {
    pub closed spec fn name1_view(&self) -> Seq<char> {
        self.file1@
    }

    pub closed spec fn name2_view(&self) -> Seq<char> {
        self.file2@
    }

    pub closed spec fn length_view(&self) -> usize {
        self.length
    }

    pub closed spec fn start1_view(&self) -> usize {
        self.start1
    }

    pub closed spec fn start2_view(&self) -> usize {
        self.start2
    }

    /// An empty result for the two named files: length 0 at offsets 0.
    pub fn new(file_name1: &str, file_name2: &str) -> (r: SearchResult)
        ensures
            r.name1_view() == file_name1@,
            r.name2_view() == file_name2@,
            r.length_view() == 0,
            r.start1_view() == 0,
            r.start2_view() == 0,
    {
        SearchResult {
            file1: String::from_str(file_name1),
            start1: 0,
            file2: String::from_str(file_name2),
            start2: 0,
            length: 0,
        }
    }

    /// Records a strand of `length` bytes starting at `start1` in the first
    /// file and at `start2` in the second.
    pub fn set(&mut self, length: usize, start1: usize, start2: usize)
        ensures
            final(self).name1_view() == old(self).name1_view(),
            final(self).name2_view() == old(self).name2_view(),
            final(self).length_view() == length,
            final(self).start1_view() == start1,
            final(self).start2_view() == start2,
    {
        self.length = length;
        self.start1 = start1;
        self.start2 = start2;
    }

    pub fn length(&self) -> (l: usize)
        ensures
            l == self.length_view(),
    {
        self.length
    }

    pub fn offset1(&self) -> (o: usize)
        ensures
            o == self.start1_view(),
    {
        self.start1
    }

    pub fn offset2(&self) -> (o: usize)
        ensures
            o == self.start2_view(),
    {
        self.start2
    }

    pub fn name1(&self) -> (n: String)
        ensures
            n@ == self.name1_view(),
    {
        self.file1.clone()
    }

    pub fn name2(&self) -> (n: String)
        ensures
            n@ == self.name2_view(),
    {
        self.file2.clone()
    }
}

/// What a scan over start pairs has established once every pair before
/// `(x_end, y_end)` has been looked at: `len` is the longest common prefix
/// seen, and `(s1, s2)` the first pair that has it.
pub open spec fn scanned_best(
    a: Seq<u8>,
    b: Seq<u8>,
    len: int,
    s1: int,
    s2: int,
    x_end: int,
    y_end: int,
) -> bool {
    &&& 0 <= len <= b.len()
    &&& (len == 0 && s1 == 0 && s2 == 0) || (len > 0 && before(s1, s2, x_end, y_end) && 0 <= s1
        < a.len() && 0 <= s2 < b.len() && lcp(a, b, s1, s2) == len)
    &&& forall|x: int, y: int|
        0 <= x < a.len() && 0 <= y < b.len() && #[trigger] before(x, y, x_end, y_end) ==> lcp(
            a,
            b,
            x,
            y,
        ) <= len
    &&& forall|x: int, y: int|
        0 <= x < a.len() && 0 <= y < b.len() && #[trigger] before(x, y, s1, s2) ==> lcp(a, b, x, y)
            < len
}

/// Once every start pair has been scanned, the best one seen is the first
/// longest common strand.
pub proof fn lemma_scanned_all(a: Seq<u8>, b: Seq<u8>, len: int, s1: int, s2: int)
    requires
        scanned_best(a, b, len, s1, s2, a.len() as int, 0),
    ensures
        first_longest(a, b, len, s1, s2),
{
    if len == 0 {
        assert(a.subrange(0, 0) =~= b.subrange(0, 0));
    } else {
        lemma_lcp_bounds(a, b, s1, s2);
        lemma_common_iff_lcp(a, b, s1, s2, len);
    }
    assert forall|x: int, y: int, k: int| #[trigger] common_at(a, b, x, y, k) implies k <= len by {
        if k > 0 {
            lemma_common_iff_lcp(a, b, x, y, k);
            assert(before(x, y, a.len() as int, 0));
        }
    }
    assert forall|x: int, y: int| #[trigger] before(x, y, s1, s2) implies !common_at(
        a,
        b,
        x,
        y,
        len,
    ) by {
        if common_at(a, b, x, y, len) && len > 0 {
            lemma_common_iff_lcp(a, b, x, y, len);
        }
    }
}

/// Finds the longest strand common to the two files by comparing every pair
/// of start positions, in O(n * m * k) time and no extra space.
pub fn cubed_search(file1: &ParsedFile, file2: &ParsedFile) -> (result: SearchResult)
    ensures
        result.name1_view() == file1.name_view(),
        result.name2_view() == file2.name_view(),
        first_longest(
            file1.bytes_view(),
            file2.bytes_view(),
            result.length_view() as int,
            result.start1_view() as int,
            result.start2_view() as int,
        ),
{
    let mut result = SearchResult::new(file1.name(), file2.name());
    let a = file1.bytes();
    let b = file2.bytes();
    let ghost sa = a@;
    let ghost sb = b@;
    for x in 0..a.len()
        invariant
            a@ == sa,
            b@ == sb,
            result.name1_view() == file1.name_view(),
            result.name2_view() == file2.name_view(),
            scanned_best(
                sa,
                sb,
                result.length_view() as int,
                result.start1_view() as int,
                result.start2_view() as int,
                x as int,
                0,
            ),
    {
        let ghost len0 = result.length_view();
        let bound = b.len() - result.length();
        for y in 0..bound
            invariant
                a@ == sa,
                bound == sb.len() - len0,
                b@ == sb,
                0 <= x < sa.len(),
                len0 <= result.length_view(),
                result.name1_view() == file1.name_view(),
                result.name2_view() == file2.name_view(),
                scanned_best(
                    sa,
                    sb,
                    result.length_view() as int,
                    result.start1_view() as int,
                    result.start2_view() as int,
                    x as int,
                    y as int,
                ),
        {
            let ghost len_p = result.length_view();
            let ghost s1_p = result.start1_view();
            let ghost s2_p = result.start2_view();
            if a[x] == b[y] {
                let mut i: usize = 0;
                while x + i < a.len() && y + i < b.len() && a[x + i] == b[y + i]
                    invariant
                        a@ == sa,
                        b@ == sb,
                        0 <= x < sa.len(),
                        0 <= y < sb.len(),
                        x + i <= a.len(),
                        y + i <= b.len(),
                        lcp(sa, sb, x as int, y as int) == i + lcp(
                            sa,
                            sb,
                            (x + i) as int,
                            (y + i) as int,
                        ),
                        result.name1_view() == file1.name_view(),
                        result.name2_view() == file2.name_view(),
                        i <= len_p ==> (result.length_view() == len_p && result.start1_view()
                            == s1_p && result.start2_view() == s2_p),
                        i > len_p ==> (result.length_view() == i && result.start1_view() == x
                            && result.start2_view() == y),
                    decreases sa.len() - i,
                {
                    if i + 1 > result.length() {
                        result.set(i + 1, x, y);
                    }
                    i += 1;
                }
                proof {
                    lemma_lcp_bounds(sa, sb, x as int, y as int);
                    assert(lcp(sa, sb, (x + i) as int, (y + i) as int) == 0);
                }
            }
            proof {
                let len = result.length_view() as int;
                let s1 = result.start1_view() as int;
                let s2 = result.start2_view() as int;
                assert(lcp(sa, sb, x as int, y as int) <= len);
                assert forall|xx: int, yy: int|
                    0 <= xx < sa.len() && 0 <= yy < sb.len() && #[trigger] before(
                        xx,
                        yy,
                        x as int,
                        y + 1,
                    ) implies lcp(sa, sb, xx, yy) <= len by {
                    if xx != x || yy != y {
                        assert(before(xx, yy, x as int, y as int));
                    }
                }
                assert forall|xx: int, yy: int|
                    0 <= xx < sa.len() && 0 <= yy < sb.len() && #[trigger] before(
                        xx,
                        yy,
                        s1,
                        s2,
                    ) implies lcp(sa, sb, xx, yy) < len by {
                    if s1 != s1_p || s2 != s2_p {
                        assert(before(xx, yy, x as int, y as int));
                    }
                }
            }
        }
        proof {
            let len = result.length_view() as int;
            let s1 = result.start1_view() as int;
            let s2 = result.start2_view() as int;
            assert forall|xx: int, yy: int|
                0 <= xx < sa.len() && 0 <= yy < sb.len() && #[trigger] before(
                    xx,
                    yy,
                    x + 1,
                    0,
                ) implies lcp(sa, sb, xx, yy) <= len by {
                if xx == x && yy >= sb.len() - len0 {
                    lemma_lcp_bounds(sa, sb, xx, yy);
                } else {
                    assert(before(xx, yy, x as int, (sb.len() - len0) as int));
                }
            }
            assert(scanned_best(sa, sb, len, s1, s2, x + 1, 0));
        }
    }
    proof {
        lemma_scanned_all(
            sa,
            sb,
            result.length_view() as int,
            result.start1_view() as int,
            result.start2_view() as int,
        );
    }
    result
}


/// What a scan over end pairs has established once every end pair before
/// `(x_end, y_end)` has been looked at: `len` is the longest common suffix
/// seen, and the strand of that length starting at `(s1, s2)` ends at the
/// first end pair that has it.
pub open spec fn scanned_best_end(
    a: Seq<u8>,
    b: Seq<u8>,
    len: int,
    s1: int,
    s2: int,
    x_end: int,
    y_end: int,
) -> bool {
    &&& 0 <= len
    &&& (len == 0 && s1 == 0 && s2 == 0) || (len > 0 && 0 <= s1 && s1 + len <= a.len() && 0 <= s2
        && s2 + len <= b.len() && before(s1 + len, s2 + len, x_end, y_end) && lcs(
        a,
        b,
        s1 + len,
        s2 + len,
    ) == len)
    &&& forall|x: int, y: int|
        1 <= x <= a.len() && 1 <= y <= b.len() && before(x, y, x_end, y_end) ==> #[trigger] lcs(
            a,
            b,
            x,
            y,
        ) <= len
    &&& forall|x: int, y: int|
        1 <= x <= a.len() && 1 <= y <= b.len() && before(x, y, s1 + len, s2 + len) ==> #[trigger] lcs(
            a,
            b,
            x,
            y,
        ) < len
}

/// Once every end pair has been scanned, the strand ending at the best one
/// seen is the first longest common strand.
pub proof fn lemma_scanned_all_ends(a: Seq<u8>, b: Seq<u8>, len: int, s1: int, s2: int)
    requires
        scanned_best_end(a, b, len, s1, s2, a.len() + 1 as int, 1),
    ensures
        first_longest(a, b, len, s1, s2),
{
    if len == 0 {
        assert(a.subrange(0, 0) =~= b.subrange(0, 0));
    } else {
        lemma_common_iff_lcs(a, b, s1 + len, s2 + len, len);
    }
    assert forall|x: int, y: int, k: int| #[trigger] common_at(a, b, x, y, k) implies k <= len by {
        if k > 0 {
            lemma_common_iff_lcs(a, b, x + k, y + k, k);
            assert(before(x + k, y + k, a.len() + 1 as int, 1));
        }
    }
    assert forall|x: int, y: int| #[trigger] before(x, y, s1, s2) implies !common_at(
        a,
        b,
        x,
        y,
        len,
    ) by {
        if common_at(a, b, x, y, len) && len > 0 {
            lemma_common_iff_lcs(a, b, x + len, y + len, len);
            assert(before(x + len, y + len, s1 + len, s2 + len));
        }
    }
}

/// Finds the longest strand common to the two files by dynamic programming
/// over common suffixes, in O(n * m) time, keeping one row of the table.
pub fn polynomial_search(file1: &ParsedFile, file2: &ParsedFile) -> (result: SearchResult)
    ensures
        result.name1_view() == file1.name_view(),
        result.name2_view() == file2.name_view(),
        first_longest(
            file1.bytes_view(),
            file2.bytes_view(),
            result.length_view() as int,
            result.start1_view() as int,
            result.start2_view() as int,
        ),
{
    let a = file1.bytes();
    let b = file2.bytes();
    let ghost sa = a@;
    let ghost sb = b@;
    // prev[y] is the length of the common suffix of a[..x] and b[..y + 1]
    let mut prev: Vec<usize> = Vec::new();
    for y in 0..b.len()
        invariant
            prev@.len() == y,
            forall|k: int| 0 <= k < y ==> prev@[k] == 0,
    {
        prev.push(0);
    }
    let mut result = SearchResult::new(file1.name(), file2.name());
    for x in 0..a.len()
        invariant
            a@ == sa,
            b@ == sb,
            prev@.len() == sb.len(),
            forall|k: int| 0 <= k < sb.len() ==> prev@[k] == lcs(sa, sb, x as int, k + 1),
            result.name1_view() == file1.name_view(),
            result.name2_view() == file2.name_view(),
            scanned_best_end(
                sa,
                sb,
                result.length_view() as int,
                result.start1_view() as int,
                result.start2_view() as int,
                x + 1,
                1,
            ),
    {
        let mut cur: Vec<usize> = Vec::new();
        for y in 0..b.len()
            invariant
                a@ == sa,
                b@ == sb,
                0 <= x < a.len(),
                y <= b.len(),
                prev@.len() == sb.len(),
                forall|k: int| 0 <= k < sb.len() ==> prev@[k] == lcs(sa, sb, x as int, k + 1),
                cur@.len() == y,
                forall|k: int| 0 <= k < y ==> cur@[k] == lcs(sa, sb, x + 1, k + 1),
                result.name1_view() == file1.name_view(),
                result.name2_view() == file2.name_view(),
                scanned_best_end(
                    sa,
                    sb,
                    result.length_view() as int,
                    result.start1_view() as int,
                    result.start2_view() as int,
                    x + 1,
                    y + 1,
                ),
        {
            let ghost len_p = result.length_view() as int;
            let ghost s1_p = result.start1_view() as int;
            let ghost s2_p = result.start2_view() as int;
            proof {
                lemma_lcs_bounds(sa, sb, x as int, y as int);
                lemma_lcs_bounds(sa, sb, x + 1, y + 1);
            }
            if a[x] == b[y] {
                let before_len = if y == 0 {
                    0
                } else {
                    prev[y - 1]
                };
                let v = before_len + 1;
                assert(v == lcs(sa, sb, x + 1, y + 1));
                cur.push(v);
                if v > result.length() {
                    result.set(v, x + 1 - v, y + 1 - v);
                }
            } else {
                cur.push(0);
            }
            proof {
                let len = result.length_view() as int;
                let s1 = result.start1_view() as int;
                let s2 = result.start2_view() as int;
                assert(lcs(sa, sb, x + 1, y + 1) <= len);
                assert forall|xx: int, yy: int|
                    1 <= xx <= sa.len() && 1 <= yy <= sb.len() && before(
                        xx,
                        yy,
                        x + 1,
                        y + 2,
                    ) implies #[trigger] lcs(sa, sb, xx, yy) <= len by {
                    if xx != x + 1 || yy != y + 1 {
                        assert(before(xx, yy, x + 1, y + 1));
                    }
                }
                assert forall|xx: int, yy: int|
                    1 <= xx <= sa.len() && 1 <= yy <= sb.len() && before(
                        xx,
                        yy,
                        s1 + len,
                        s2 + len,
                    ) implies #[trigger] lcs(sa, sb, xx, yy) < len by {
                    if len != len_p {
                        assert(before(xx, yy, x + 1, y + 1));
                    }
                }
            }
        }
        prev = cur;
        proof {
            let len = result.length_view() as int;
            let s1 = result.start1_view() as int;
            let s2 = result.start2_view() as int;
            assert forall|xx: int, yy: int|
                1 <= xx <= sa.len() && 1 <= yy <= sb.len() && before(
                    xx,
                    yy,
                    x + 2,
                    1,
                ) implies #[trigger] lcs(sa, sb, xx, yy) <= len by {
                assert(before(xx, yy, x + 1, sb.len() + 1 as int));
            }
        }
    }
    proof {
        lemma_scanned_all_ends(
            sa,
            sb,
            result.length_view() as int,
            result.start1_view() as int,
            result.start2_view() as int,
        );
    }
    result
}


/// Finds the longest strand common to the two files: see `cubed_search`.
pub fn search(file1: &ParsedFile, file2: &ParsedFile) -> (result: SearchResult)
    ensures
        result.name1_view() == file1.name_view(),
        result.name2_view() == file2.name_view(),
        first_longest(
            file1.bytes_view(),
            file2.bytes_view(),
            result.length_view() as int,
            result.start1_view() as int,
            result.start2_view() as int,
        ),
{
    cubed_search(file1, file2)
}

/// Every part of a common strand is a common strand.
proof fn lemma_common_part(a: Seq<u8>, b: Seq<u8>, x: int, y: int, k: int, i: int, j: int)
    requires
        common_at(a, b, x, y, k),
        0 <= i <= j <= k,
    ensures
        common_at(a, b, x + i, y + i, j - i),
{
    let sa = a.subrange(x, x + k);
    let sb = b.subrange(y, y + k);
    assert(a.subrange(x + i, x + j) =~= sa.subrange(i, j));
    assert(b.subrange(y + i, y + j) =~= sb.subrange(i, j));
}

/// What the window scan of `suffix_tree_search` has established once its
/// window `a[start..=end]` is about to be looked up: `best` is one less than
/// the window's length and is the longest strand common to `b` that ends
/// before `end`, and `s1` is the first position of `a` where such a strand
/// starts.
pub open spec fn window_scanned(a: Seq<u8>, b: Seq<u8>, best: int, s1: int, start: int, end: int) -> bool {
    &&& 0 <= start
    &&& start + best == end
    &&& end <= a.len()
    &&& 0 <= best <= b.len()
    &&& forall|x: int, y: int, k: int| #[trigger] common_at(a, b, x, y, k) && x + k <= end ==> k <= best
    &&& best == 0 ==> s1 == 0
    &&& best > 0 ==> {
        &&& 0 <= s1
        &&& s1 + best <= end
        &&& is_strand_of(a.subrange(s1, s1 + best), b)
        &&& forall|x: int, y: int| #[trigger] common_at(a, b, x, y, best) ==> x >= s1
    }
}

/// Finds the longest strand common to the two files with a suffix trie of
/// the second: a window over the first file grows by a byte while it is a
/// strand of the second file and slides by a byte when it is not, so its
/// length only grows past a strand found.  The strand reported is the first
/// longest one, as `search` reports it; its offset in the second file is
/// where it first occurs there.
pub fn suffix_tree_search(file1: &ParsedFile, file2: &ParsedFile) -> (result: SearchResult)
    ensures
        result.name1_view() == file1.name_view(),
        result.name2_view() == file2.name_view(),
        first_longest(
            file1.bytes_view(),
            file2.bytes_view(),
            result.length_view() as int,
            result.start1_view() as int,
            result.start2_view() as int,
        ),
{
    let ghost a = file1.bytes_view();
    let ghost b = file2.bytes_view();
    let mut result = SearchResult::new(file1.name(), file2.name());
    let tree = SuffixTree::create_from(file2.bytes());
    let file1_bytes = file1.bytes();
    let mut start: usize = 0;
    let mut end: usize = 0;
    while end < file1_bytes.len() && result.length() < file2.bytes().len()
        invariant
            file1_bytes@ == a,
            file2.bytes_view() == b,
            tree.wf(),
            forall|s: Seq<u8>| #[trigger] tree.strands().contains(s) <==> is_strand_of(s, b),
            result.name1_view() == file1.name_view(),
            result.name2_view() == file2.name_view(),
            result.start2_view() == 0,
            window_scanned(
                a,
                b,
                result.length_view() as int,
                result.start1_view() as int,
                start as int,
                end as int,
            ),
        decreases a.len() - end,
    {
        let ghost best = result.length_view() as int;
        let ghost window = a.subrange(start as int, end + 1);
        if tree.contains_sub(&file1_bytes, start, end) {
            let length = end - start + 1;
            if length > result.length() {
                result.set(length, start, 0);
            }
            proof {
                let w = choose|y: int| #[trigger] occurs_at(window, b, y);
                assert(common_at(a, b, start as int, w, best + 1));
                assert forall|x: int, y: int, k: int|
                    #[trigger] common_at(a, b, x, y, k) && x + k <= end + 1 implies k <= best + 1 by {
                    if x + k == end + 1 && k > best + 1 {
                        lemma_common_part(a, b, x, y, k, 0, k - 1);
                    }
                }
                assert forall|x: int, y: int| #[trigger] common_at(a, b, x, y, best + 1) implies x
                    >= start by {
                    if x < start {
                        assert(x + best + 1 <= end);
                    }
                }
            }
        } else {
            proof {
                assert forall|x: int, y: int, k: int|
                    #[trigger] common_at(a, b, x, y, k) && x + k <= end + 1 implies k <= best by {
                    if x + k == end + 1 && k > best {
                        let i = k - best - 1;
                        lemma_common_part(a, b, x, y, k, i, k);
                        assert(x + i == start);
                        assert(occurs_at(window, b, y + i));
                    }
                }
            }
            start += 1;
        }
        end += 1;
    }
    let ghost best = result.length_view() as int;
    let ghost s1 = result.start1_view() as int;
    proof {
        assert forall|x: int, y: int, k: int| #[trigger] common_at(a, b, x, y, k) implies k <= best by {
            if end < a.len() {
                assert(best == b.len());
            }
        }
    }
    if result.length() > 0 {
        let first = result.offset1();
        let length = result.length();
        let search_for = SearchFor { bytes: file1_bytes, start: first, stop: first + length - 1 };
        let found = search_for_in(file2.bytes(), &search_for);
        proof {
            assert(target_of(&search_for) =~= a.subrange(s1, s1 + best));
        }
        match found {
            Some(second) => {
                result.set(length, first, second);
                proof {
                    assert(common_at(a, b, s1, second as int, best));
                    assert forall|x: int, y: int| #[trigger] before(x, y, s1, second as int) implies !common_at(
                        a,
                        b,
                        x,
                        y,
                        best,
                    ) by {
                        if common_at(a, b, x, y, best) && x == s1 {
                            assert(occurs_at(target_of(&search_for), b, y));
                        }
                    }
                }
            },
            None => {
                proof {
                    let w = choose|y: int| #[trigger] occurs_at(a.subrange(s1, s1 + best), b, y);
                    assert(occurs_at(target_of(&search_for), b, w));
                }
            },
        }
    } else {
        proof {
            assert(a.subrange(0, 0) =~= b.subrange(0, 0));
        }
    }
    result
}

/// The longest strand found so far over pairs of files: the indices of the
/// two files, where the strand starts in each, and its length.
#[derive(Debug)]
pub struct BestStrand {
    pub file1: usize,
    pub file2: usize,
    pub pos_1: usize,
    pub pos_2: usize,
    pub length: usize,
}

impl BestStrand {
    /// Nothing found yet.
    pub fn new() -> (b: BestStrand)
        ensures
            b == (BestStrand { file1: 0, file2: 0, pos_1: 0, pos_2: 0, length: 0 }),
    {
        BestStrand { file1: 0, file2: 0, pos_1: 0, pos_2: 0, length: 0 }
    }

    /// Takes the result of comparing files `i` and `j` when its strand is
    /// strictly longer than the best so far; says whether it did.
    pub fn offer(&mut self, i: usize, j: usize, res: &SearchResult) -> (taken: bool)
        ensures
            taken == (old(self).length < res.length_view()),
            taken ==> *final(self) == (BestStrand {
                file1: i,
                file2: j,
                pos_1: res.start1_view(),
                pos_2: res.start2_view(),
                length: res.length_view(),
            }),
            !taken ==> *final(self) == *old(self),
            final(self).length >= old(self).length,
            final(self).length >= res.length_view(),
    {
        if self.length < res.length() {
            self.file1 = i;
            self.file2 = j;
            self.pos_1 = res.offset1();
            self.pos_2 = res.offset2();
            self.length = res.length();
            true
        } else {
            false
        }
    }
}
} // verus!
