//! A suffix trie over bytes: every node has one slot per byte value, and a
//! path from the root spells a strand held by the trie.
use vstd::prelude::*;

verus! {

/// The children of a trie node, one slot per byte value.
#[derive(Debug)]
pub struct SmallMap {
    vals: Vec<Option<SuffixTree>>,
}

/// Number of occupied slots in `vals`.
pub open spec fn count_some(vals: Seq<Option<SuffixTree>>) -> nat
    decreases vals.len(),
{
    if vals.len() == 0 {
        0
    } else {
        count_some(vals.drop_last()) + if vals.last() is Some {
            1nat
        } else {
            0nat
        }
    }
}

proof fn lemma_count_some_bounds(vals: Seq<Option<SuffixTree>>)
    ensures
        count_some(vals) <= vals.len(),
        count_some(vals) == 0 <==> forall|i: int| 0 <= i < vals.len() ==> vals[i] is None,
    decreases vals.len(),
{
    if vals.len() > 0 {
        lemma_count_some_bounds(vals.drop_last());
        if count_some(vals) == 0 {
            assert forall|i: int| 0 <= i < vals.len() implies vals[i] is None by {
                if i < vals.len() - 1 {
                    assert(vals[i] == vals.drop_last()[i]);
                }
            }
        }
        if forall|i: int| 0 <= i < vals.len() ==> vals[i] is None {
            assert forall|i: int| 0 <= i < vals.len() - 1 implies vals.drop_last()[i] is None by {
                assert(vals[i] == vals.drop_last()[i]);
            }
        }
    }
}

proof fn lemma_count_some_update(vals: Seq<Option<SuffixTree>>, i: int, v: Option<SuffixTree>)
    requires
        0 <= i < vals.len(),
    ensures
        count_some(vals.update(i, v)) + (if vals[i] is Some {
            1int
        } else {
            0int
        }) == count_some(vals) + (if v is Some {
            1int
        } else {
            0int
        }),
    decreases vals.len(),
{
    let u = vals.update(i, v);
    if i == vals.len() - 1 {
        assert(u.drop_last() =~= vals.drop_last());
    } else {
        lemma_count_some_update(vals.drop_last(), i, v);
        assert(u.drop_last() =~= vals.drop_last().update(i, v));
    }
}

impl SmallMap {
    /// The slots, indexed by byte value.
    pub closed spec fn slots(&self) -> Seq<Option<SuffixTree>> {
        self.vals@
    }

    /// A map with all 256 slots empty.
    pub fn new() -> (m: SmallMap)
        ensures
            m.slots().len() == 256,
            forall|i: int| 0 <= i < 256 ==> m.slots()[i] is None,
    {
        let mut vals: Vec<Option<SuffixTree>> = Vec::new();
        while vals.len() < 256
            invariant
                vals@.len() <= 256,
                forall|i: int| 0 <= i < vals@.len() ==> vals@[i] is None,
            decreases 256 - vals@.len(),
        {
            vals.push(None);
        }
        SmallMap { vals }
    }
}

fn map_contains(m: &SmallMap, val: u8) -> (r: bool)
    requires
        m.vals@.len() == 256,
    ensures
        r == m.vals@[val as int] is Some,
{
    match m.vals[val as usize] {
        None => false,
        Some(_) => true,
    }
}

fn insert(m: &mut SmallMap, val: u8)
    requires
        old(m).vals@.len() == 256,
    ensures
        old(m).vals@[val as int] is Some ==> *final(m) == *old(m),
        final(m).vals@.len() == 256,
        forall|i: int| 0 <= i < 256 && i != val ==> final(m).vals@[i] == old(m).vals@[i],
        final(m).vals@[val as int] matches Some(t) && (old(m).vals@[val as int] is None
            ==> t.is_bare()),
{
    match m.vals[val as usize] {
        None => m.vals.set(val as usize, Some(SuffixTree::new())),
        Some(_) => (),
    }
}

fn map_get(m: &SmallMap, val: u8) -> (r: Option<&SuffixTree>)
    requires
        m.vals@.len() == 256,
    ensures
        r is None <==> m.vals@[val as int] is None,
        r matches Some(t) ==> m.vals@[val as int] == Some(*t),
{
    match &m.vals[val as usize] {
        None => None,
        Some(t) => Some(t),
    }
}

/// A trie node.  `size` counts the byte values that have a child.
#[derive(Debug)]
pub struct SuffixTree {
    data: SmallMap,
    size: usize,
}

/// `s` occurs in `t` starting at position `i`.
pub open spec fn occurs_at(s: Seq<u8>, t: Seq<u8>, i: int) -> bool {
    0 <= i && i + s.len() <= t.len() && t.subrange(i, i + s.len()) == s
}

/// `s` is a strand of `t`: it occurs somewhere in it.
pub open spec fn is_strand_of(s: Seq<u8>, t: Seq<u8>) -> bool {
    exists|i: int| occurs_at(s, t, i)
}

impl SuffixTree {
    /// The child reached by byte `b`, if any.
    pub closed spec fn child(self, b: int) -> Option<SuffixTree> {
        self.data.vals@[b]
    }

    /// A node with no children.
    pub closed spec fn is_bare(self) -> bool {
        &&& self.data.vals@.len() == 256
        &&& self.size == 0
        &&& forall|i: int| 0 <= i < 256 ==> #[trigger] self.data.vals@[i] is None
    }

    /// Every node has 256 slots and counts its children correctly.
    pub closed spec fn wf(self) -> bool
        decreases self,
    {
        &&& self.data.vals@.len() == 256
        &&& self.size == count_some(self.data.vals@)
        &&& forall|i: int|
            0 <= i < 256 ==> match #[trigger] self.data.vals@[i] {
                Some(t) => t.wf(),
                None => true,
            }
    }

    /// The path `s` can be followed from this node.
    pub closed spec fn has_path(self, s: Seq<u8>) -> bool
        decreases s.len(),
    {
        if s.len() == 0 {
            true
        } else {
            match self.data.vals@[s[0] as int] {
                Some(t) => t.has_path(s.drop_first()),
                None => false,
            }
        }
    }

    /// The set of strands spelled by the paths from this node.
    pub closed spec fn strands(self) -> Set<Seq<u8>> {
        Set::new(|s: Seq<u8>| self.has_path(s))
    }
}


proof fn lemma_bare_paths(t: SuffixTree, s: Seq<u8>)
    requires
        t.is_bare(),
    ensures
        t.wf(),
        t.has_path(s) <==> s.len() == 0,
{
    lemma_count_some_bounds(t.data.vals@);
    if s.len() > 0 {
        assert(t.data.vals@[s[0] as int] is None);
    }
}

/// How a path that starts with byte `b` is followed: through the child at `b`.
proof fn lemma_path_step(t: SuffixTree, b: u8, r: Seq<u8>)
    ensures
        t.has_path(seq![b] + r) == match t.data.vals@[b as int] {
            Some(c) => c.has_path(r),
            None => false,
        },
{
    let s = seq![b] + r;
    assert(s[0] == b);
    assert(s.drop_first() =~= r);
}

/// Every non-empty path is its first byte followed by the rest.
proof fn lemma_path_split(s: Seq<u8>)
    requires
        s.len() > 0,
    ensures
        s == seq![s[0]] + s.drop_first(),
{
    assert(s =~= seq![s[0]] + s.drop_first());
}

impl SuffixTree {
    /// A trie holding only the empty strand.
    pub fn new() -> (t: SuffixTree)
        ensures
            t.wf(),
            t.is_bare(),
            t.strands() == set![Seq::<u8>::empty()],
    {
        let t = SuffixTree { data: SmallMap::new(), size: 0 };
        proof {
            lemma_bare_paths(t, Seq::empty());
            assert forall|s: Seq<u8>| t.has_path(s) <==> set![Seq::<u8>::empty()].contains(s) by {
                lemma_bare_paths(t, s);
                if s.len() == 0 {
                    assert(s =~= Seq::<u8>::empty());
                }
            }
            assert(t.strands() =~= set![Seq::<u8>::empty()]);
        }
        t
    }

    /// Gives this node a child for `byte` if it has none.
    pub fn add(&mut self, byte: u8)
        requires
            old(self).wf(),
        ensures
            final(self).wf(),
            final(self).strands() == old(self).strands().insert(seq![byte]),
            final(self).child(byte as int) is Some,
            forall|i: int| 0 <= i < 256 && i != byte ==> final(self).child(i) == old(self).child(i),
            old(self).child(byte as int) is Some ==> *final(self) == *old(self),
            old(self).child(byte as int) is None ==> final(self).child(byte as int)->0.is_bare(),
    {
        proof {
            lemma_count_some_bounds(self.data.vals@);
        }
        let ghost old_self = *self;
        match map_get(&self.data, byte) {
            None => {
                insert(&mut self.data, byte);
                self.size += 1;
            },
            Some(_) => (),
        };
        proof {
            let vals0 = old_self.data.vals@;
            let vals1 = self.data.vals@;
            if vals0[byte as int] is None {
                assert(vals1 =~= vals0.update(byte as int, vals1[byte as int]));
                lemma_count_some_update(vals0, byte as int, vals1[byte as int]);
                lemma_bare_paths(vals1[byte as int]->0, Seq::empty());
                assert forall|i: int| 0 <= i < 256 implies match #[trigger] vals1[i] {
                    Some(t) => t.wf(),
                    None => true,
                } by {
                    if i != byte {
                        assert(vals1[i] == vals0[i]);
                    }
                }
            }
            assert forall|s: Seq<u8>| #[trigger] self.has_path(s) <==> old_self.strands().insert(seq![byte]).contains(s) by {
                if s.len() > 0 {
                    lemma_path_split(s);
                    let r = s.drop_first();
                    lemma_path_step(*self, s[0], r);
                    lemma_path_step(old_self, s[0], r);
                    if s[0] == byte {
                        if vals0[byte as int] is None {
                            lemma_bare_paths(vals1[byte as int]->0, r);
                            if r.len() == 0 {
                                assert(s =~= seq![byte]);
                            }
                        } else if s == seq![byte] {
                            assert(r =~= Seq::<u8>::empty());
                        }
                    } else {
                        assert(s != seq![byte]);
                    }
                } else {
                    assert(s != seq![byte]);
                }
            }
            assert(self.strands() =~= old_self.strands().insert(seq![byte]));
        }
    }

    /// This node has no children: the only strand it holds is the empty one.
    pub fn is_empty(&self) -> (r: bool)
        requires
            self.wf(),
        ensures
            r <==> self.strands() == set![Seq::<u8>::empty()],
    {
        proof {
            lemma_count_some_bounds(self.data.vals@);
            if self.size == 0 {
                assert forall|s: Seq<u8>| self.has_path(s) <==> set![Seq::<u8>::empty()].contains(s) by {
                    if s.len() > 0 {
                        assert(self.data.vals@[s[0] as int] is None);
                    } else {
                        assert(s =~= Seq::<u8>::empty());
                    }
                }
                assert(self.strands() =~= set![Seq::<u8>::empty()]);
            } else {
                let i = choose|i: int| 0 <= i < 256 && self.data.vals@[i] is Some;
                let b = i as u8;
                lemma_path_step(*self, b, Seq::empty());
                assert(self.strands().contains(seq![b]));
                assert(!set![Seq::<u8>::empty()].contains(seq![b]));
            }
        }
        self.size == 0
    }
}

impl SuffixTree {
    /// Adds the path spelling `arr[position..]`, and with it every prefix of
    /// that suffix.
    #[verifier::spinoff_prover]
    #[verifier::rlimit(40)]
    pub fn add_suffix(&mut self, arr: &Vec<u8>, position: usize)
        requires
            old(self).wf(),
        ensures
            final(self).wf(),
            forall|s: Seq<u8>|
                #[trigger] final(self).strands().contains(s) <==> old(self).strands().contains(s)
                    || occurs_at(s, arr@, position as int),
            position >= arr.len() ==> *final(self) == *old(self),
        decreases arr.len() - position,
    {
        let ghost old_self = *self;
        if position >= arr.len() {
            proof {
                assert forall|s: Seq<u8>| #[trigger] occurs_at(s, arr@, position as int) implies self.has_path(s) by {
                    assert(s.len() == 0);
                }
            }
            return ;
        }
        let byte = arr[position];
        self.add(byte);
        let ghost mid_self = *self;
        let mut child: Option<SuffixTree> = None;
        self.data.vals.set_and_swap(byte as usize, &mut child);
        match child {
            Some(mut t) => {
                let ghost t0 = t;
                t.add_suffix(arr, position + 1);
                let ghost t1 = t;
                self.data.vals.set(byte as usize, Some(t));
                proof {
                    let vals1 = mid_self.data.vals@;
                    let vals2 = self.data.vals@;
                    assert(vals2 =~= vals1.update(byte as int, Some(t1)));
                    lemma_count_some_update(vals1, byte as int, Some(t1));
                    assert forall|i: int| 0 <= i < 256 implies match #[trigger] vals2[i] {
                        Some(t) => t.wf(),
                        None => true,
                    } by {
                        if i != byte {
                            assert(vals2[i] == vals1[i]);
                        }
                    }
                    assert forall|s: Seq<u8>|
                        #[trigger] self.strands().contains(s) <==> old_self.strands().contains(s)
                            || occurs_at(s, arr@, position as int) by {
                        if s.len() > 0 {
                            lemma_path_split(s);
                            let r = s.drop_first();
                            lemma_path_step(*self, s[0], r);
                            lemma_path_step(mid_self, s[0], r);
                            let ss = arr@.subrange(position as int, position + s.len());
                            if s[0] == byte {
                                assert(t1.strands().contains(r) == (t0.strands().contains(r)
                                    || occurs_at(r, arr@, position + 1)));
                                if position + s.len() <= arr.len() {
                                    assert(ss.drop_first() =~= arr@.subrange(
                                        position + 1,
                                        position + 1 + r.len(),
                                    ));
                                    if ss == s {
                                        assert(ss.drop_first() == r);
                                    } else if occurs_at(r, arr@, position + 1) {
                                        assert(ss =~= s);
                                    }
                                }
                                if r.len() == 0 {
                                    assert(s =~= seq![byte]);
                                    lemma_path_step(mid_self, byte, Seq::empty());
                                }
                                assert(old_self.strands().insert(seq![byte]).contains(s)
                                    == mid_self.strands().contains(s));
                            } else {
                                assert(mid_self.strands().contains(s) == old_self.strands().insert(
                                    seq![byte],
                                ).contains(s));
                                if position + s.len() <= arr.len() {
                                    assert(ss[0] == byte);
                                }
                                assert(s != seq![byte]);
                            }
                        }
                    }
                }
            },
            None => {
                proof {
                    assert(false);
                }
            },
        }
    }

    /// The trie holds the strand `arr`.
    pub fn has(&self, arr: &Vec<u8>) -> (r: bool)
        requires
            self.wf(),
        ensures
            r == self.strands().contains(arr@),
    {
        proof {
            assert(arr@.subrange(0, arr@.len() as int) =~= arr@);
        }
        self.contains(arr, 0)
    }

    /// The trie holds the strand `arr[position..]`.
    fn contains(&self, arr: &Vec<u8>, position: usize) -> (r: bool)
        requires
            self.wf(),
        ensures
            r == (position >= arr.len() || self.has_path(
                arr@.subrange(position as int, arr.len() as int),
            )),
        decreases arr.len() - position,
    {
        if position >= arr.len() {
            return true;
        }
        let ghost s = arr@.subrange(position as int, arr.len() as int);
        proof {
            lemma_path_split(s);
            lemma_path_step(*self, arr@[position as int], s.drop_first());
            assert(s.drop_first() =~= arr@.subrange(position + 1, arr.len() as int));
        }
        match map_get(&self.data, arr[position]) {
            None => false,
            Some(t) => t.contains(arr, position + 1),
        }
    }

    /// The trie holds the strand `arr[start..=end]`.
    pub fn contains_sub(&self, arr: &Vec<u8>, start: usize, end: usize) -> (r: bool)
        requires
            self.wf(),
            start <= end < arr.len(),
        ensures
            r == self.strands().contains(arr@.subrange(start as int, end + 1)),
        decreases end - start,
    {
        let ghost s = arr@.subrange(start as int, end + 1);
        proof {
            lemma_path_split(s);
            lemma_path_step(*self, arr@[start as int], s.drop_first());
        }
        if start == end {
            proof {
                assert(s.drop_first() =~= Seq::<u8>::empty());
            }
            return map_contains(&self.data, arr[start]);
        }
        proof {
            assert(s.drop_first() =~= arr@.subrange(start + 1, end + 1));
        }
        match map_get(&self.data, arr[start]) {
            None => false,
            Some(t) => t.contains_sub(arr, start + 1, end),
        }
    }

    /// The suffix trie of `arr`: it holds exactly the strands of `arr`.
    pub fn create_from(arr: &Vec<u8>) -> (root: SuffixTree)
        ensures
            root.wf(),
            forall|s: Seq<u8>| #[trigger] root.strands().contains(s) <==> is_strand_of(s, arr@),
    {
        let mut root = SuffixTree::new();
        let mut i = arr.len();
        proof {
            assert forall|s: Seq<u8>|
                #[trigger] root.strands().contains(s) <==> exists|j: int|
                    i <= j && occurs_at(s, arr@, j) by {
                if s.len() == 0 {
                    assert(arr@.subrange(i as int, i as int) =~= s);
                    assert(occurs_at(s, arr@, i as int));
                }
            }
        }
        while i > 0
            invariant
                i <= arr.len(),
                root.wf(),
                forall|s: Seq<u8>|
                    #[trigger] root.strands().contains(s) <==> exists|j: int|
                        i <= j && occurs_at(s, arr@, j),
            decreases i,
        {
            i -= 1;
            root.add_suffix(arr, i);
            proof {
                assert forall|s: Seq<u8>|
                    #[trigger] root.strands().contains(s) <==> exists|j: int|
                        i <= j && occurs_at(s, arr@, j) by {
                    if exists|j: int| i <= j && occurs_at(s, arr@, j) {
                        let j = choose|j: int| i <= j && occurs_at(s, arr@, j);
                        if j > i {
                            assert(exists|j: int| i + 1 <= j && occurs_at(s, arr@, j));
                        }
                    }
                }
            }
        }
        root
    }
}

/// Every prefix of a strand that a trie holds is held too: a path can be
/// followed part of the way.
pub proof fn lemma_strands_prefix_closed(t: SuffixTree, s: Seq<u8>, k: int)
    requires
        t.wf(),
        t.strands().contains(s),
        0 <= k <= s.len(),
    ensures
        t.strands().contains(s.subrange(0, k)),
    decreases s.len(),
{
    let p = s.subrange(0, k);
    if k > 0 {
        let c = t.data.vals@[s[0] as int]->0;
        assert(t.data.vals@[s[0] as int] is Some);
        assert(c.strands().contains(s.drop_first()));
        lemma_strands_prefix_closed(c, s.drop_first(), k - 1);
        assert(p[0] == s[0]);
        assert(p.drop_first() =~= s.drop_first().subrange(0, k - 1));
    }
}

/// The suffix trie of a text holds the whole text.
pub proof fn lemma_trie_holds_its_text(t: SuffixTree, arr: Seq<u8>)
    requires
        forall|s: Seq<u8>| #[trigger] t.strands().contains(s) <==> is_strand_of(s, arr),
    ensures
        t.strands().contains(arr),
{
    assert(arr.subrange(0, arr.len() as int) =~= arr);
    assert(occurs_at(arr, arr, 0));
}

/// Every trie holds the empty strand: the empty path can always be followed.
pub proof fn lemma_holds_empty_strand(t: SuffixTree)
    ensures
        t.strands().contains(Seq::<u8>::empty()),
{
}
} // verus!
