//! An (unfinished) suffix tree in the style of Ukkonen's construction.
//!
//! The nodes live in one table: the children of the node of order `o` sit at
//! `o * width + key`, one slot per byte value `key`.  The root has order 0,
//! so its children are the first `width` slots.
use vstd::prelude::*;

verus! {

/// Where a node's suffix link points.
#[derive(Debug)]
pub enum LinkNode {
    Unlinked,
    Root,
    Internal(usize),
}

/// One end of the range of bytes that labels an edge; `End` is the open end
/// of a leaf, which grows with the text.
#[derive(Debug)]
pub enum EdgeIndex {
    Index(usize),
    End,
}

/// The range of the text that labels the edge into a node.
#[derive(Debug)]
pub struct Range {
    pub start: EdgeIndex,
    pub end: EdgeIndex,
}

#[derive(Debug)]
pub enum NodeType {
    Internal,
    Extenal,
}

/// A node of the tree.  `order` says where its children sit in the table.
#[derive(Debug)]
pub struct UNode {
    pub children: Vec<usize>,
    pub range: Range,
    pub link: LinkNode,
    pub order: usize,
}

/// A leaf to be made: its range and its key in its parent.
#[derive(Debug)]
pub struct NodeConfig {
    pub range: Range,
    pub key: u8,
}

/// How to split an edge: after `branch_len` bytes the edge continues with
/// `tree_ele` (the old rest) and a new leaf for `arr_ele` starts at
/// `arr_index`.
pub struct AddNodeConfig {
    pub branch_len: usize,
    pub tree_ele: u8,
    pub arr_ele: u8,
    pub arr_index: usize,
}

/// The decimal digit `d` as a character.
pub open spec fn digit_char(d: nat) -> char {
    (48 + d) as char
}

/// The decimal representation of `n`: its digits, most significant first,
/// with no sign and no leading zeros (`0` is a single digit).
pub open spec fn decimal(n: nat) -> Seq<char>
    decreases n,
{
    if n < 10 {
        seq![digit_char(n)]
    } else {
        decimal(n / 10).push(digit_char(n % 10))
    }
}

/// std's `ToString::to_string` on a `usize`, through its `Display`.
/// Claims that the text is the decimal representation of `n`.
#[verifier::external_body]
fn decimal_string(n: usize) -> (s: String)
    ensures
        s@ == decimal(n as nat),
{
    n.to_string()
}

/// The text `"start - end"` for a range, with `end` for an open end.
pub open spec fn range_text(range: Range) -> Seq<char> {
    decimal(range.start->Index_0 as nat) + " - "@ + match range.end {
        EdgeIndex::Index(i) => decimal(i as nat),
        EdgeIndex::End => "end"@,
    }
}

/// The text naming a suffix link.
pub open spec fn link_text(link: LinkNode) -> Seq<char> {
    match link {
        LinkNode::Unlinked => "none"@,
        LinkNode::Root => "root"@,
        LinkNode::Internal(index) => decimal(index as nat),
    }
}

impl Range {
    pub fn set_start(&mut self, start: usize)
        ensures
            final(self).start == EdgeIndex::Index(start),
            final(self).end == old(self).end,
    {
        self.start = EdgeIndex::Index(start);
    }

    pub fn set_end(&mut self, end: Option<usize>)
        ensures
            final(self).start == old(self).start,
            final(self).end == match end {
                None => EdgeIndex::End,
                Some(i) => EdgeIndex::Index(i),
            },
    {
        match end {
            None => {
                self.end = EdgeIndex::End;
            },
            Some(i) => {
                self.end = EdgeIndex::Index(i);
            },
        }
    }

    pub fn get_start(&self) -> (s: usize)
        requires
            self.start is Index,
        ensures
            s == self.start->Index_0,
    {
        match self.start {
            EdgeIndex::Index(i) => i,
            _ => {
                proof {
                    assert(false);
                }
                0
            },
        }
    }

    pub fn has_end_index(&self) -> (r: bool)
        ensures
            r == self.end is Index,
    {
        match self.end {
            EdgeIndex::Index(_) => true,
            _ => false,
        }
    }

    /// The number of bytes in a closed range.
    pub fn length(&self) -> (l: usize)
        requires
            self.start is Index,
            self.end is Index,
            self.start->Index_0 <= self.end->Index_0,
            self.end->Index_0 - self.start->Index_0 < usize::MAX,
        ensures
            l == self.end->Index_0 - self.start->Index_0 + 1,
    {
        let start = self.get_start();
        match self.end {
            EdgeIndex::Index(i) => i - start + 1,
            _ => {
                proof {
                    assert(false);
                }
                0
            },
        }
    }

    pub fn to_str(&self) -> (s: String)
        requires
            self.start is Index,
        ensures
            s@ == range_text(*self),
    {
        let start = self.get_start();
        let text = decimal_string(start).concat(" - ");
        match self.end {
            EdgeIndex::Index(i) => text.concat(decimal_string(i).as_str()),
            EdgeIndex::End => text.concat("end"),
        }
    }

    /// A copy of `range`.
    pub fn clone(range: &Range) -> (r: Range)
        requires
            range.start is Index,
        ensures
            r == *range,
    {
        let start = match range.start {
            EdgeIndex::Index(i) => i,
            _ => {
                proof {
                    assert(false);
                }
                0
            },
        };
        match range.end {
            EdgeIndex::End => Range { start: EdgeIndex::Index(start), end: EdgeIndex::End },
            EdgeIndex::Index(e) => Range { start: EdgeIndex::Index(start), end: EdgeIndex::Index(e) },
        }
    }
}

/// The position `length` bytes into the edge of `curr_node`.
pub fn get_index(curr_node: &UNode, length: usize) -> (r: usize)
    requires
        curr_node.range.start is Index,
        curr_node.range.start->Index_0 + length <= usize::MAX,
    ensures
        r == curr_node.range.start->Index_0 + length,
{
    match curr_node.range.start {
        EdgeIndex::Index(i) => i + length,
        _ => {
            proof {
                assert(false);
            }
            0
        },
    }
}

pub fn node_start(node: &UNode) -> (r: usize)
    requires
        node.range.start is Index,
    ensures
        r == node.range.start->Index_0,
{
    match node.range.start {
        EdgeIndex::Index(i) => i,
        _ => {
            proof {
                assert(false);
            }
            0
        },
    }
}

pub fn link_to_str(link: &LinkNode) -> (s: String)
    ensures
        s@ == link_text(*link),
{
    match link {
        LinkNode::Unlinked => String::from_str("none"),
        LinkNode::Root => String::from_str("root"),
        LinkNode::Internal(index) => decimal_string(*index),
    }
}

/// A node whose range is open at the end is a leaf.
pub fn node_type_string(range: &Range) -> (t: NodeType)
    ensures
        t == if range.end is End {
            NodeType::Extenal
        } else {
            NodeType::Internal
        },
{
    match range.end {
        EdgeIndex::End => NodeType::Extenal,
        _ => NodeType::Internal,
    }
}

pub fn get_range_start(node: &UNode) -> (r: usize)
    requires
        node.range.start is Index,
    ensures
        r == node.range.start->Index_0,
{
    match node.range.start {
        EdgeIndex::Index(i) => i,
        _ => {
            proof {
                assert(false);
            }
            0
        },
    }
}

pub fn unpack_range(range: &Range) -> (s: String)
    requires
        range.start is Index,
    ensures
        s@ == range_text(*range),
{
    let start = match range.start {
        EdgeIndex::Index(i) => decimal_string(i),
        _ => {
            proof {
                assert(false);
            }
            String::new()
        },
    };
    let end = match range.end {
        EdgeIndex::Index(i) => decimal_string(i),
        EdgeIndex::End => String::from_str("end"),
    };
    start.concat(" - ").concat(end.as_str())
}

/// The range of a new leaf `end` bytes past the start of `curr_node_range`.
pub fn get_new_leaf_range(curr_node_range: &Range, end: usize) -> (r: Range)
    requires
        curr_node_range.start is Index,
        curr_node_range.start->Index_0 + end <= usize::MAX,
    ensures
        r == (Range {
            start: EdgeIndex::Index((curr_node_range.start->Index_0 + end) as usize),
            end: EdgeIndex::End,
        }),
{
    match curr_node_range.start {
        EdgeIndex::Index(i) => Range { start: EdgeIndex::Index(i + end), end: EdgeIndex::End },
        _ => {
            proof {
                assert(false);
            }
            Range { start: EdgeIndex::End, end: EdgeIndex::End }
        },
    }
}


/// What a node holds, for contracts.
pub struct NodeModel {
    pub children: Seq<usize>,
    pub range: Range,
    pub link: LinkNode,
    pub order: usize,
}

impl View for UNode {
    type V = NodeModel;

    open spec fn view(&self) -> NodeModel {
        NodeModel {
            children: self.children@,
            range: self.range,
            link: self.link,
            order: self.order,
        }
    }
}

pub open spec fn slot_view(o: Option<UNode>) -> Option<NodeModel> {
    match o {
        Some(n) => Some(n@),
        None => None,
    }
}

/// A fresh leaf whose edge starts at `start` and stays open.
pub open spec fn leaf_model(start: int, order: int) -> NodeModel {
    NodeModel {
        children: Seq::empty(),
        range: Range { start: EdgeIndex::Index(start as usize), end: EdgeIndex::End },
        link: LinkNode::Unlinked,
        order: order as usize,
    }
}

/// A node of a table of `size` blocks: its range has a start and its
/// order is at most `size`.
pub open spec fn node_fits_loosely(n: NodeModel, size: nat) -> bool {
    &&& n.range.start is Index
    &&& n.order <= size
}

/// A node that fits loosely and, when it is internal (its range has an
/// end), has the block for its children in the table.
pub open spec fn node_fits(n: NodeModel, size: nat) -> bool {
    &&& node_fits_loosely(n, size)
    &&& n.range.end is Index ==> n.order < size
}

/// What a tree holds, for contracts.
pub struct TreeModel {
    pub root: NodeModel,
    pub nodes: Seq<Option<NodeModel>>,
    pub size: nat,
    pub width: nat,
}

impl TreeModel {
    /// The table has one block of `width == 256` slots per node order below
    /// `size`, and every stored node fits it loosely.
    pub open spec fn wf_loosely(self) -> bool {
        &&& self.width == 256
        &&& self.size >= 1
        &&& self.nodes.len() == self.size * 256
        &&& self.root.order == 0
        &&& self.root.range.start is Index
        &&& forall|i: int|
            0 <= i < self.nodes.len() && #[trigger] self.nodes[i] is Some ==> node_fits_loosely(
                self.nodes[i]->0,
                self.size,
            )
    }

    /// The table is well formed, and every stored node fits it.
    pub open spec fn wf(self) -> bool {
        &&& self.wf_loosely()
        &&& forall|i: int|
            0 <= i < self.nodes.len() && #[trigger] self.nodes[i] is Some ==> node_fits(self.nodes[i]->0, self.size)
    }

    /// Where the child for `key` of a node of order `order` sits.
    pub open spec fn slot(self, order: int, key: int) -> int {
        order * self.width + key
    }

    /// The order of the root (`None`) or of the node at a table position.
    pub open spec fn order_of(self, pos: Option<usize>) -> int {
        match pos {
            None => 0,
            Some(i) => self.nodes[i as int]->0.order as int,
        }
    }

    /// The range of the root (`None`) or of the node at a table position.
    pub open spec fn range_of(self, pos: Option<usize>) -> Range {
        match pos {
            None => self.root.range,
            Some(i) => self.nodes[i as int]->0.range,
        }
    }

    /// `pos` names the root or a stored node.
    pub open spec fn names_node(self, pos: Option<usize>) -> bool {
        match pos {
            None => true,
            Some(i) => i < self.nodes.len() && self.nodes[i as int] is Some,
        }
    }

    /// `pos` names the root or a stored node whose children lie in the table.
    pub open spec fn position_ok(self, pos: Option<usize>) -> bool {
        self.names_node(pos) && self.order_of(pos) < self.size
    }

    /// The child for `key` of the node that `pos` names.
    pub open spec fn child_of(self, pos: Option<usize>, key: u8) -> Option<NodeModel> {
        self.nodes[self.slot(self.order_of(pos), key as int)]
    }

    /// The root's child for `edge` is internal, its edge spans `length`
    /// bytes, and it has a child for `key`.
    pub open spec fn edge_has_child(self, edge: u8, length: usize, key: u8) -> bool {
        let c = self.nodes[edge as int];
        &&& c is Some
        &&& c->0.range.end is Index
        &&& c->0.range.end->Index_0 + 1 == c->0.range.start->Index_0 + length
        &&& self.nodes[self.slot(c->0.order as int, key as int)] is Some
    }

    pub open spec fn put(self, i: int, n: NodeModel) -> TreeModel {
        TreeModel { nodes: self.nodes.update(i, Some(n)), ..self }
    }

    /// The table grown by one empty block.
    pub open spec fn grown(self) -> TreeModel {
        TreeModel {
            size: self.size + 1,
            nodes: self.nodes + Seq::new(self.width, |i: int| None::<NodeModel>),
            ..self
        }
    }

    /// The tree after `new_leaf(order, key, start)`.
    pub open spec fn with_new_leaf(self, order: int, key: int, start: int) -> TreeModel {
        self.grown().put(self.slot(order, key), leaf_model(start, self.size + 1 as int))
    }

    /// The conditions under which `add_node(pos, key, config)` can run:
    /// the child exists, the cut position and two more blocks fit in a
    /// `usize`, and a cut inside an edge is not at position 0.
    pub open spec fn add_node_ok(self, pos: Option<usize>, key: u8, config: AddNodeConfig) -> bool {
        let h = self.slot(self.order_of(pos), key as int);
        let c = self.nodes[h]->0;
        let cut = c.range.start->Index_0 + config.branch_len;
        &&& self.position_ok(pos)
        &&& self.nodes[h] is Some
        &&& cut <= usize::MAX
        &&& (self.size + 2) * 256 <= usize::MAX
        &&& match c.range.end {
            EdgeIndex::End => cut >= 1,
            EdgeIndex::Index(e) => cut <= e ==> cut >= 1,
        }
    }

    /// The tree after the cut inside the edge of the internal node at `h`:
    /// a new node of the next order takes its place, the node keeps the rest
    /// of its edge below the new node, and a leaf for `arr_ele` hangs beside.
    pub open spec fn cut_inside(self, h: int, config: AddNodeConfig) -> TreeModel {
        let c = self.nodes[h]->0;
        let start = c.range.start->Index_0 as int;
        let cut = start + config.branch_len;
        let top = NodeModel {
            children: Seq::empty(),
            range: Range { start: c.range.start, end: EdgeIndex::Index((cut - 1) as usize) },
            link: LinkNode::Root,
            order: self.size as usize,
        };
        let rest = NodeModel {
            range: Range { start: EdgeIndex::Index(cut as usize), end: c.range.end },
            ..c
        };
        let t = self.grown().put(h, top);
        let t2 = t.put(t.slot(self.size as int, config.tree_ele as int), rest);
        t2.put(
            t2.slot(self.size as int, config.arr_ele as int),
            leaf_model(config.arr_index as int, t2.size as int),
        ).grown()
    }

    /// The tree after `add_node(pos, key, config)`, and its result.
    pub open spec fn add_node_result(self, pos: Option<usize>, key: u8, config: AddNodeConfig) -> (
        TreeModel,
        int,
    ) {
        let h = self.slot(self.order_of(pos), key as int);
        let c = self.nodes[h]->0;
        let cut = c.range.start->Index_0 + config.branch_len;
        match c.range.end {
            EdgeIndex::End => (self.split_at(h, config), h),
            EdgeIndex::Index(e) => if cut == e + 1 {
                (
                    self.put(
                        self.slot(c.order as int, config.arr_ele as int),
                        leaf_model(config.arr_index as int, self.size as int),
                    ).grown(),
                    h,
                )
            } else if cut > e + 1 {
                let g = self.slot(c.order as int, config.tree_ele as int);
                if self.nodes[g] is Some {
                    (
                        self.with_new_leaf(
                            self.nodes[g]->0.order as int,
                            config.arr_ele as int,
                            config.arr_index as int,
                        ),
                        g,
                    )
                } else {
                    (
                        self.with_new_leaf(
                            c.order as int,
                            config.tree_ele as int,
                            config.arr_index as int,
                        ),
                        h,
                    )
                }
            } else {
                (self.cut_inside(h, config), h)
            },
        }
    }

    /// The tree after `split_node(i, config)`: the edge into the node at `i`
    /// is cut after `branch_len` bytes, and two leaves hang below it.
    pub open spec fn split_at(self, i: int, config: AddNodeConfig) -> TreeModel {
        let n = self.nodes[i]->0;
        let start = n.range.start->Index_0 as int;
        let cut = NodeModel {
            range: Range {
                start: n.range.start,
                end: EdgeIndex::Index((start + config.branch_len - 1) as usize),
            },
            link: LinkNode::Root,
            ..n
        };
        self.put(i, cut).with_new_leaf(n.order as int, config.arr_ele as int, config.arr_index as int).with_new_leaf(
            n.order as int,
            config.tree_ele as int,
            start + config.branch_len,
        )
    }
}

/// The tree before anything is added: the root, with an empty block for its
/// children.
pub open spec fn initial_tree() -> TreeModel {
    TreeModel {
        root: NodeModel {
            children: Seq::empty(),
            range: Range { start: EdgeIndex::Index(0), end: EdgeIndex::End },
            link: LinkNode::Unlinked,
            order: 0,
        },
        nodes: Seq::new(256, |i: int| None::<NodeModel>),
        size: 1,
        width: 256,
    }
}

/// A table of tree nodes, with the root kept apart.
#[derive(Debug)]
pub struct UkkonenTree {
    pub root: UNode,
    pub nodes: Vec<Option<UNode>>,
    pub size: usize,
    pub width: usize,
}

impl View for UkkonenTree {
    type V = TreeModel;

    open spec fn view(&self) -> TreeModel {
        self.model()
    }
}

impl UNode {
    pub fn new(range: Range, link: LinkNode, order: usize) -> (n: UNode)
        ensures
            n@ == (NodeModel { children: Seq::empty(), range, link, order }),
    {
        UNode { children: Vec::new(), range, link, order }
    }

    pub fn length(&self) -> (l: usize)
        requires
            self.range.start is Index,
            self.range.end is Index,
            self.range.start->Index_0 <= self.range.end->Index_0,
            self.range.end->Index_0 - self.range.start->Index_0 < usize::MAX,
        ensures
            l == self.range.end->Index_0 - self.range.start->Index_0 + 1,
    {
        self.range.length()
    }

    pub fn set_link(&mut self, link: LinkNode)
        ensures
            final(self)@ == (NodeModel { link, ..old(self)@ }),
    {
        self.link = link;
    }
}

impl UkkonenTree {
    pub open spec fn model(&self) -> TreeModel {
        TreeModel {
            root: self.root@,
            nodes: self.nodes@.map_values(|o: Option<UNode>| slot_view(o)),
            size: self.size as nat,
            width: self.width as nat,
        }
    }

    proof fn lemma_put(&self, old_tree: TreeModel, i: int, n: UNode)
        requires
            0 <= i < old_tree.nodes.len(),
            old_tree.nodes.len() == self.nodes@.len(),
            forall|j: int| 0 <= j < self.nodes@.len() && j != i ==> #[trigger] slot_view(self.nodes@[j]) == old_tree.nodes[j],
            self.nodes@[i] == Some(n),
            self.root@ == old_tree.root,
            self.size == old_tree.size,
            self.width == old_tree.width,
        ensures
            self@ == old_tree.put(i, n@),
    {
        assert(self@.nodes =~= old_tree.put(i, n@).nodes);
    }

    /// An empty tree: the root, with room for its children.
    pub fn new() -> (t: UkkonenTree)
        ensures
            t@.wf(),
            t@ == initial_tree(),
    {
        let root_range = Range { start: EdgeIndex::Index(0), end: EdgeIndex::End };
        let width: usize = 256;
        let mut nodes: Vec<Option<UNode>> = Vec::new();
        while nodes.len() < width
            invariant
                width == 256,
                nodes@.len() <= width,
                forall|i: int| 0 <= i < nodes@.len() ==> nodes@[i] is None,
            decreases width - nodes@.len(),
        {
            nodes.push(None);
        }
        let t = UkkonenTree {
            root: UNode::new(root_range, LinkNode::Unlinked, 0),
            nodes,
            size: 1,
            width,
        };
        proof {
            assert(t@.nodes =~= Seq::new(256, |i: int| None::<NodeModel>));
        }
        t
    }
}

impl UkkonenTree {
    /// Points the suffix link of the node at `from` to the node at `to`.
    pub fn update_link(&mut self, from: usize, to: usize)
        requires
            old(self)@.wf(),
            from < old(self)@.nodes.len(),
            old(self)@.nodes[from as int] is Some,
        ensures
            final(self)@.wf(),
            final(self)@ == old(self)@.put(
                from as int,
                NodeModel { link: LinkNode::Internal(to), ..old(self)@.nodes[from as int]->0 },
            ),
    {
        let ghost old_tree = self@;
        let mut taken: Option<UNode> = None;
        self.nodes.set_and_swap(from, &mut taken);
        let mut from_node = taken.unwrap();
        from_node.set_link(LinkNode::Internal(to));
        self.nodes.set(from, Some(from_node));
        proof {
            assert(slot_view(old(self).nodes@[from as int]) == old_tree.nodes[from as int]);
            self.lemma_put(old_tree, from as int, from_node);
            assert forall|i: int|
                0 <= i < self@.nodes.len() && #[trigger] self@.nodes[i] is Some implies node_fits(self@.nodes[i]->0, self@.size) by {
                assert(old_tree.nodes[i] is Some);
            }
        }
    }

    /// Where the child for `key` of a node of order `node_order` sits.
    fn hash(&self, node_order: usize, key: u8) -> (h: usize)
        requires
            self@.wf(),
            node_order < self@.size,
        ensures
            h == self@.slot(node_order as int, key as int),
            h < self@.nodes.len(),
    {
        proof {
            assert(node_order * 256 + key < self@.size * 256) by (nonlinear_arith)
                requires
                    node_order < self@.size,
                    key < 256,
            ;
            assert(self.width == 256);
            assert(node_order * self.width == node_order * 256);
            assert(self.nodes@.len() == self.nodes.len());
        }
        (node_order * self.width) + (key as usize)
    }

    fn get_node_order(&self, node_index: Option<usize>) -> (o: usize)
        requires
            self@.wf(),
            self@.names_node(node_index),
        ensures
            o == self@.order_of(node_index),
    {
        match node_index {
            None => 0,
            Some(i) => self.nodes[i].as_ref().unwrap().order,
        }
    }

    fn next_order(&self) -> (o: usize)
        ensures
            o == self@.size,
    {
        self.size
    }

    /// Grows the table by one empty block, for the children of a new order.
    fn inc_size(&mut self)
        requires
            old(self)@.wf_loosely(),
            (old(self)@.size + 1) * 256 <= usize::MAX,
        ensures
            final(self)@.wf(),
            final(self)@ == old(self)@.grown(),
    {
        let ghost old_tree = self@;
        self.size += 1;
        let target = self.size * self.width;
        while self.nodes.len() < target
            invariant
                self.size == old_tree.size + 1,
                self.width == 256,
                self.root@ == old_tree.root,
                target == self.size * 256,
                old_tree.nodes.len() <= self.nodes@.len() <= target,
                forall|j: int| 0 <= j < old_tree.nodes.len() ==> #[trigger] slot_view(self.nodes@[j]) == old_tree.nodes[j],
                forall|j: int| old_tree.nodes.len() <= j < self.nodes@.len() ==> #[trigger] self.nodes@[j] is None,
            decreases target - self.nodes@.len(),
        {
            self.nodes.push(None);
        }
        proof {
            assert(self@.nodes =~= old_tree.grown().nodes);
            assert forall|i: int|
                0 <= i < self@.nodes.len() && #[trigger] self@.nodes[i] is Some implies node_fits(self@.nodes[i]->0, self@.size) by {
                assert(old_tree.nodes[i] is Some);
                assert(node_fits_loosely(old_tree.nodes[i]->0, old_tree.size));
            }
            assert forall|i: int|
                0 <= i < self@.nodes.len() && #[trigger] self@.nodes[i] is Some implies node_fits_loosely(self@.nodes[i]->0, self@.size) by {
                assert(node_fits(self@.nodes[i]->0, self@.size));
            }
        }
    }

    /// Whether the node that `node_pos` names has a child for `child_key`.
    fn has_child(&self, node_pos: Option<usize>, child_key: u8) -> (r: bool)
        requires
            self@.wf(),
            self@.position_ok(node_pos),
        ensures
            r == self@.child_of(node_pos, child_key) is Some,
    {
        let node_order = self.get_node_order(node_pos);
        let child_pos = self.hash(node_order, child_key);
        match self.nodes[child_pos] {
            None => false,
            Some(_) => true,
        }
    }

    pub fn node_has_child(&self, active_node: Option<usize>, item_to_check: u8) -> (r: bool)
        requires
            self@.wf(),
            self@.position_ok(active_node),
        ensures
            r == self@.child_of(active_node, item_to_check) is Some,
    {
        self.has_child(active_node, item_to_check)
    }

    /// Where the child for `child_key` of the node that `node_key` names sits.
    fn child_hash(&self, node_key: Option<usize>, child_key: u8) -> (h: usize)
        requires
            self@.wf(),
            self@.position_ok(node_key),
        ensures
            h == self@.slot(self@.order_of(node_key), child_key as int),
            h < self@.nodes.len(),
    {
        let node_order = self.get_node_order(node_key);
        self.hash(node_order, child_key)
    }

    pub fn is_root(node: &UNode) -> (r: bool)
        ensures
            r == (node.order == 0),
    {
        node.order == 0
    }

    /// A copy of the range of the node at `node_index`.
    pub fn node_range(&self, node_index: usize) -> (r: Range)
        requires
            self@.wf(),
            self@.names_node(Some(node_index)),
        ensures
            r == self@.nodes[node_index as int]->0.range,
    {
        let node = self.nodes[node_index].as_ref().unwrap();
        proof {
            assert(self@.nodes[node_index as int] is Some);
        }
        Range::clone(&node.range)
    }

    /// A copy of the range of the root (`None`) or of the node at a position.
    pub fn get_node_range(&self, node_index: Option<usize>) -> (r: Range)
        requires
            self@.wf(),
            self@.names_node(node_index),
        ensures
            r == self@.range_of(node_index),
    {
        match node_index {
            None => Range::clone(&self.root.range),
            Some(i) => self.node_range(i),
        }
    }

    /// Whether the child for `child_key` of the node that `node_key` names
    /// is a leaf.
    fn edge_is_leaf(&self, node_key: Option<usize>, child_key: u8) -> (r: bool)
        requires
            self@.wf(),
            self@.position_ok(node_key),
            self@.child_of(node_key, child_key) is Some,
        ensures
            r == self@.child_of(node_key, child_key)->0.range.end is End,
    {
        let child_hash = self.child_hash(node_key, child_key);
        match self.nodes[child_hash].as_ref().unwrap().range.end {
            EdgeIndex::End => true,
            _ => false,
        }
    }

    fn is_leaf(&self, key: usize) -> (r: bool)
        requires
            self@.names_node(Some(key)),
        ensures
            r == self@.nodes[key as int]->0.range.end is End,
    {
        match self.nodes[key].as_ref().unwrap().range.end {
            EdgeIndex::End => true,
            _ => false,
        }
    }

    /// The position `length` bytes into the edge of the child for
    /// `active_edge` of the node that `active_node` names.
    pub fn represented_index(&self, active_node: Option<usize>, active_edge: u8, length: usize) -> (r: usize)
        requires
            self@.wf(),
            self@.position_ok(active_node),
            self@.child_of(active_node, active_edge) is Some,
            self@.child_of(active_node, active_edge)->0.range.start->Index_0 + length <= usize::MAX,
        ensures
            r == self@.child_of(active_node, active_edge)->0.range.start->Index_0 + length,
    {
        let mut offset: usize = 0;
        if let Some(i) = active_node {
            let node = self.nodes[i].as_ref().unwrap();
            proof {
                assert(node.order * 256 <= (self@.size - 1) * 256) by (nonlinear_arith)
                    requires
                        node.order < self@.size,
                ;
                assert(self.width == 256);
                assert(node.order * self.width == node.order * 256);
                assert(self.nodes@.len() == self.nodes.len());
            }
            offset = node.order * self.width;
        };
        let key = active_edge as usize;
        let child = self.nodes[offset + key].as_ref().unwrap();
        proof {
            assert(self@.nodes[offset + key] is Some);
        }
        child.range.get_start() + length
    }

    /// Follows the root's edge for `edge` one level down, and tells whether
    /// that node is internal, spans exactly `length` bytes, and has a child
    /// for `key`.
    pub fn index_is_child(&self, edge: u8, length: usize, key: u8) -> (r: bool)
        requires
            self@.wf(),
        ensures
            r == self@.edge_has_child(edge, length, key),
    {
        proof {
            assert(slot_view(self.nodes@[edge as int]) == self@.nodes[edge as int]);
        }
        let child = match &self.nodes[edge as usize] {
            Some(c) => c,
            None => {
                return false;
            },
        };
        let start = child.range.get_start();
        let end = match child.range.end {
            EdgeIndex::Index(e) => e,
            EdgeIndex::End => {
                return false;
            },
        };
        if (end as u128) + 1 != (start as u128) + (length as u128) {
            return false;
        }
        self.has_child(Some(edge as usize), key)
    }
}

impl UkkonenTree {
    /// Hangs a new leaf under the node that `node_pos` names: the leaf takes
    /// the next order, and the table grows by the block for it.
    fn create_leaf_for(&mut self, node_pos: Option<usize>, child_config: NodeConfig)
        requires
            old(self)@.wf(),
            old(self)@.position_ok(node_pos),
            (old(self)@.size + 1) * 256 <= usize::MAX,
        ensures
            child_config.range.start is Index ==> final(self)@.wf(),
            final(self)@ == old(self)@.grown().put(
                old(self)@.slot(old(self)@.order_of(node_pos), child_config.key as int),
                NodeModel {
                    children: Seq::empty(),
                    range: child_config.range,
                    link: LinkNode::Unlinked,
                    order: old(self)@.size as usize,
                },
            ),
    {
        let node_order = self.get_node_order(node_pos);
        let child_hash = self.hash(node_order, child_config.key);
        // leaf nodes do not have links
        let new_child = UNode::new(child_config.range, LinkNode::Unlinked, self.next_order());
        self.inc_size();
        let ghost grown = self@;
        let ghost n = new_child;
        self.nodes.set(child_hash, Some(new_child));
        proof {
            self.lemma_put(grown, child_hash as int, n);
            if n.range.start is Index {
                assert forall|i: int|
                    0 <= i < self@.nodes.len() && #[trigger] self@.nodes[i] is Some implies node_fits(
                    self@.nodes[i]->0,
                    self@.size,
                ) by {
                    if i != child_hash {
                        assert(grown.nodes[i] is Some);
                    }
                }
            }
        }
    }

    /// Grows the table, then hangs a new leaf, starting at `start`, under
    /// the nodes of order `order`; the leaf's order is the grown size.
    fn new_leaf(&mut self, order: usize, key: u8, start: usize) -> (h: usize)
        requires
            old(self)@.wf_loosely(),
            order <= old(self)@.size,
            (old(self)@.size + 1) * 256 <= usize::MAX,
        ensures
            final(self)@.wf(),
            h == old(self)@.slot(order as int, key as int),
            final(self)@ == old(self)@.with_new_leaf(order as int, key as int, start as int),
    {
        let range = Range { start: EdgeIndex::Index(start), end: EdgeIndex::End };
        proof {
            assert(order * 256 + key < (self@.size + 1) * 256) by (nonlinear_arith)
                requires
                    order <= self@.size,
                    key < 256,
            ;
            assert(self.width == 256);
            assert(order * self.width == order * 256);
        }
        let hash_key = order * self.width + key as usize;
        self.inc_size();
        let ghost grown = self@;
        let leaf = UNode::new(range, LinkNode::Unlinked, self.next_order());
        let ghost n = leaf;
        self.nodes.set(hash_key, Some(leaf));
        proof {
            self.lemma_put(grown, hash_key as int, n);
            assert forall|i: int|
                0 <= i < self@.nodes.len() && #[trigger] self@.nodes[i] is Some implies node_fits(
                self@.nodes[i]->0,
                self@.size,
            ) by {
                if i != hash_key {
                    assert(grown.nodes[i] is Some);
                }
            }
        }
        hash_key
    }

    /// Hangs a new leaf, starting at `start`, under the nodes of order
    /// `order`, with the current size as its order, then grows the table.
    pub fn add_leaf(&mut self, order: usize, key: u8, start: usize) -> (h: usize)
        requires
            old(self)@.wf(),
            order < old(self)@.size,
            (old(self)@.size + 1) * 256 <= usize::MAX,
        ensures
            final(self)@.wf(),
            h == old(self)@.slot(order as int, key as int),
            final(self)@ == old(self)@.put(h as int, leaf_model(start as int, old(self)@.size as int)).grown(),
    {
        let ghost old_tree = self@;
        let range = Range { start: EdgeIndex::Index(start), end: EdgeIndex::End };
        let hash_key = self.hash(order, key);
        let leaf = UNode::new(range, LinkNode::Unlinked, self.next_order());
        let ghost n = leaf;
        self.nodes.set(hash_key, Some(leaf));
        proof {
            self.lemma_put(old_tree, hash_key as int, n);
            assert forall|i: int|
                0 <= i < self@.nodes.len() && #[trigger] self@.nodes[i] is Some implies node_fits(
                self@.nodes[i]->0,
                self@.size,
            ) by {
                if i != hash_key {
                    assert(old_tree.nodes[i] is Some);
                }
            }
        }
        self.inc_size();
        hash_key
    }

    /// Hangs a new leaf for `child_key` under the node that `active_node`
    /// names; the leaf's edge starts `end` bytes past that node's start.
    pub fn add_leaf_to(&mut self, active_node: Option<usize>, child_key: u8, end: usize)
        requires
            old(self)@.wf(),
            old(self)@.position_ok(active_node),
            old(self)@.range_of(active_node).start->Index_0 + end <= usize::MAX,
            (old(self)@.size + 1) * 256 <= usize::MAX,
        ensures
            final(self)@.wf(),
            final(self)@ == old(self)@.grown().put(
                old(self)@.slot(old(self)@.order_of(active_node), child_key as int),
                leaf_model(
                    old(self)@.range_of(active_node).start->Index_0 + end,
                    old(self)@.size as int,
                ),
            ),
    {
        let curr_node_range = self.get_node_range(active_node);
        proof {
            if let Some(i) = active_node {
                assert(self@.nodes[i as int] is Some);
            }
        }
        let new_range = get_new_leaf_range(&curr_node_range, end);
        let config = NodeConfig { range: new_range, key: child_key };
        self.create_leaf_for(active_node, config);
    }

    /// Cuts the edge into the node at `node_key` after `config.branch_len`
    /// bytes, and hangs two leaves below the cut: one for `config.arr_ele`
    /// starting at `config.arr_index`, one for `config.tree_ele` for the rest
    /// of the old edge.
    pub fn split_node(&mut self, node_key: usize, config: &AddNodeConfig)
        requires
            old(self)@.wf(),
            old(self)@.names_node(Some(node_key)),
            old(self)@.nodes[node_key as int]->0.range.start->Index_0 + config.branch_len >= 1,
            old(self)@.nodes[node_key as int]->0.range.start->Index_0 + config.branch_len
                <= usize::MAX,
            (old(self)@.size + 2) * 256 <= usize::MAX,
        ensures
            final(self)@.wf(),
            final(self)@ == old(self)@.split_at(node_key as int, *config),
    {
        let ghost old_tree = self@;
        let mut order: usize = 0;
        let mut new_start: usize = 0;
        {
            let mut taken: Option<UNode> = None;
            self.nodes.set_and_swap(node_key, &mut taken);
            let mut node = taken.unwrap();
            proof {
                assert(old_tree.nodes[node_key as int] is Some);
            }
            order = node.order;
            let edge_start = node.range.get_start();
            let new_end = edge_start + config.branch_len - 1;
            new_start = edge_start + config.branch_len;
            node.range.set_end(Some(new_end));
            node.set_link(LinkNode::Root);
            let ghost n = node;
            self.nodes.set(node_key, Some(node));
            proof {
                self.lemma_put(old_tree, node_key as int, n);
                assert forall|i: int|
                    0 <= i < self@.nodes.len() && #[trigger] self@.nodes[i] is Some implies node_fits_loosely(self@.nodes[i]->0, self@.size) by {
                    assert(old_tree.nodes[i] is Some);
                    assert(node_fits(old_tree.nodes[i]->0, old_tree.size));
                }
            }
        }
        UkkonenTree::new_leaf(self, order, config.arr_ele, config.arr_index);
        UkkonenTree::new_leaf(self, order, config.tree_ele, new_start);
    }

    /// Places the suffix that `config` describes at the child for
    /// `child_key` of the node that `node_key` names, and returns the table
    /// position of the internal node the new leaf hangs from:
    /// 1. the child is a leaf: its edge is cut after `branch_len` bytes and
    ///    two leaves hang below it (see `split_node`); returns its position;
    /// 2. the child is internal and the cut falls at its end: a leaf for
    ///    `arr_ele` hangs below it; returns its position;
    /// 3. the child is internal and the cut falls past its end: a leaf for
    ///    `arr_ele` hangs below the child's child for `tree_ele`, whose
    ///    position is returned; when that node is missing, a new leaf takes
    ///    its place and the child's position is returned;
    /// 4. the child is internal and the cut falls inside its edge: a new
    ///    node takes the child's place with the first `branch_len` bytes,
    ///    the child keeps the rest of its edge and hangs below the new node
    ///    for `tree_ele`, and a leaf for `arr_ele` hangs beside it; returns
    ///    the position of the new node.
    pub fn add_node(&mut self, node_key: Option<usize>, child_key: u8, config: AddNodeConfig) -> (r: usize)
        requires
            old(self)@.wf(),
            old(self)@.add_node_ok(node_key, child_key, config),
        ensures
            final(self)@.wf(),
            (final(self)@, r as int) == old(self)@.add_node_result(node_key, child_key, config),
    {
        let ghost old_tree = self@;
        let edge_hash = self.child_hash(node_key, child_key);
        if self.edge_is_leaf(node_key, child_key) {
            Self::split_node(self, edge_hash, &config);
            return edge_hash;
        };
        let child = self.nodes[edge_hash].as_ref().unwrap();
        proof {
            assert(slot_view(self.nodes@[edge_hash as int]) == self@.nodes[edge_hash as int]);
        }
        let child_order = child.order;
        let start = child.range.get_start();
        let end = match child.range.end {
            EdgeIndex::Index(e) => e,
            EdgeIndex::End => {
                proof {
                    assert(false);
                }
                0
            },
        };
        let cut = start + config.branch_len;
        if cut > end {
            if cut - end == 1 {
                // the cut falls at the end of the child's edge
                self.add_leaf(child_order, config.arr_ele, config.arr_index);
                return edge_hash;
            }
            // the cut falls past the child: go on to its child for tree_ele
            let below = self.hash(child_order, config.tree_ele);
            proof {
                assert(slot_view(self.nodes@[below as int]) == self@.nodes[below as int]);
            }
            match &self.nodes[below] {
                Some(b) => {
                    let below_order = b.order;
                    proof {
                        assert(self@.nodes[below as int] is Some);
                    }
                    self.new_leaf(below_order, config.arr_ele, config.arr_index);
                    return below;
                },
                None => {
                    // that child is missing: it becomes a new leaf
                    self.new_leaf(child_order, config.tree_ele, config.arr_index);
                    return edge_hash;
                },
            }
        }
        // the cut falls inside the child's edge: a new node takes its place
        let mut taken: Option<UNode> = None;
        self.nodes.set_and_swap(edge_hash, &mut taken);
        let mut rest = taken.unwrap();
        proof {
            assert forall|i: int|
                0 <= i < self@.nodes.len() && #[trigger] self@.nodes[i] is Some implies node_fits(
                self@.nodes[i]->0,
                self@.size,
            ) by {
                assert(slot_view(self.nodes@[i]) == self@.nodes[i]);
                assert(slot_view(old(self).nodes@[i]) == old_tree.nodes[i]);
                assert(old_tree.nodes[i] is Some);
            }
        }
        let top_order = self.next_order();
        self.inc_size();
        let top = UNode::new(
            Range { start: EdgeIndex::Index(start), end: EdgeIndex::Index(cut - 1) },
            LinkNode::Root,
            top_order,
        );
        let ghost before_top = self@;
        let ghost top_v = top;
        self.nodes.set(edge_hash, Some(top));
        proof {
            self.lemma_put(before_top, edge_hash as int, top_v);
            assert forall|i: int|
                0 <= i < self@.nodes.len() && #[trigger] self@.nodes[i] is Some implies node_fits(
                self@.nodes[i]->0,
                self@.size,
            ) by {
                if i != edge_hash {
                    assert(before_top.nodes[i] is Some);
                }
            }
        }
        rest.range.set_start(cut);
        let rest_slot = self.hash(top_order, config.tree_ele);
        let ghost before_rest = self@;
        let ghost rest_v = rest;
        self.nodes.set(rest_slot, Some(rest));
        proof {
            self.lemma_put(before_rest, rest_slot as int, rest_v);
            assert forall|i: int|
                0 <= i < self@.nodes.len() && #[trigger] self@.nodes[i] is Some implies node_fits(
                self@.nodes[i]->0,
                self@.size,
            ) by {
                if i != rest_slot {
                    assert(before_rest.nodes[i] is Some);
                }
            }
        }
        self.add_leaf(top_order, config.arr_ele, config.arr_index);
        proof {
            let o = old_tree;
            let t1 = o.grown().put(edge_hash as int, top_v@);
            assert(before_top.nodes =~= o.grown().nodes.update(edge_hash as int, None));
            assert(t1.nodes =~= before_top.put(edge_hash as int, top_v@).nodes);
        }
        edge_hash
    }
}

/// Where the construction stands between two steps: at the head of the loop
/// over the text, at the head of the loop over the pending suffixes, just
/// after an edge was split (and the tree shown), or finished.
#[derive(Debug)]
pub enum BuildPoint {
    Outer,
    Inner,
    AfterSplit,
    Done,
}

/// What the caller of `step` must do next: step again, show the tree and
/// step again, announce the end and show the tree, or stop.
#[derive(Debug, PartialEq, Eq, Structural)]
pub enum BuildAction {
    Continue,
    PrintTree,
    PrintFinal,
    Finished,
}

/// The state of the construction of the tree of a text.
pub struct UkkonenBuild {
    tree: UkkonenTree,
    remaining: usize,
    active_node: Option<usize>,
    active_length: usize,
    active_edge: Option<u8>,
    added_internal: Option<usize>,
    phase: usize,
    end: usize,
    point: BuildPoint,
    internal_node: usize,
    current_end: u8,
}

/// What the construction state holds, for contracts.
pub struct BuildModel {
    pub tree: TreeModel,
    pub remaining: usize,
    pub active_node: Option<usize>,
    pub active_length: usize,
    pub active_edge: Option<u8>,
    pub added_internal: Option<usize>,
    pub phase: usize,
    pub end: usize,
    pub point: BuildPoint,
    pub internal_node: usize,
    pub current_end: u8,
}

impl View for UkkonenBuild {
    type V = BuildModel;

    open spec fn view(&self) -> BuildModel {
        self.model()
    }
}

impl BuildModel {
    /// The child of the active node along the active edge.
    pub open spec fn active_child(self) -> NodeModel {
        self.tree.child_of(self.active_node, self.active_edge->0)->0
    }

    /// The text position that the active point stands on.
    pub open spec fn suffix_index(self) -> int {
        self.active_child().range.start->Index_0 + self.active_length
    }

    /// What the construction keeps true from step to step: the end never
    /// passes the text, the phase is 1 or 2, an inner step at the end of the
    /// text still has suffixes pending, and a split happens inside the text.
    pub open spec fn build_inv(self, a: Seq<u8>) -> bool {
        &&& self.end <= a.len()
        &&& self.phase == 1 || self.phase == 2
        &&& (self.point is Inner && self.end == a.len()) ==> self.remaining > 0
        &&& self.point is AfterSplit ==> (self.end < a.len() && self.remaining > 0)
    }

    /// The measure that every step decreases, compared lexicographically:
    /// bytes left to read, whether the outer loop is about to start a byte,
    /// suffixes pending, whether the phase is 1, whether a step of the inner
    /// loop is about to run.
    pub open spec fn measure(self, a: Seq<u8>) -> (int, int, int, int, int) {
        (
            a.len() - self.end,
            if self.point is Outer {
                1int
            } else {
                0int
            },
            self.remaining as int,
            if self.phase == 1 {
                1int
            } else {
                0int
            },
            if self.point is Inner {
                1int
            } else {
                0int
            },
        )
    }

    /// How the active edge is split when the text and the tree disagree.
    pub open spec fn split_config(self, a: Seq<u8>) -> AddNodeConfig {
        AddNodeConfig {
            branch_len: self.active_length,
            tree_ele: a[self.suffix_index()],
            arr_ele: a[self.end as int],
            arr_index: self.end,
        }
    }

    /// The next step of the construction makes no out-of-bounds access,
    /// no arithmetic overflow and unwraps nothing absent.
    pub open spec fn step_ok(self, a: Seq<u8>) -> bool {
        match self.point {
            BuildPoint::Outer => self.end < a.len() ==> self.remaining < usize::MAX,
            BuildPoint::Inner => if self.remaining == 0 {
                self.end < usize::MAX
            } else if self.end == a.len() {
                true
            } else if self.phase == 1 {
                &&& self.end < a.len()
                &&& self.tree.position_ok(self.active_node)
                &&& self.tree.range_of(self.active_node).start->Index_0 + self.end <= usize::MAX
                &&& self.tree.child_of(self.active_node, a[self.end as int]) is None ==> (
                self.tree.size + 1) * 256 <= usize::MAX
            } else if self.phase == 2 {
                &&& self.end < a.len()
                &&& self.active_edge is Some
                &&& self.tree.position_ok(self.active_node)
                &&& self.tree.child_of(self.active_node, self.active_edge->0) is Some
                &&& self.suffix_index() < a.len()
                &&& a[self.suffix_index()] == a[self.end as int] ==> (self.active_length
                    < usize::MAX && self.remaining < usize::MAX)
                &&& a[self.suffix_index()] != a[self.end as int] ==> self.tree.add_node_ok(
                    self.active_node,
                    self.active_edge->0,
                    self.split_config(a),
                )
            } else {
                true
            },
            BuildPoint::AfterSplit => {
                &&& self.added_internal matches Some(last) ==> self.tree.names_node(Some(last))
                &&& self.remaining >= 1
                &&& self.active_length >= 1
                &&& self.active_length - 1 <= self.end < a.len()
                &&& self.remaining - 1 == 1 ==> (self.tree.root.range.start->Index_0 + self.end
                    <= usize::MAX && (self.tree.size + 1) * 256 <= usize::MAX)
            },
            BuildPoint::Done => true,
        }
    }

    /// The state and the action after one step of the construction.
    pub open spec fn step_result(self, a: Seq<u8>) -> (BuildModel, BuildAction) {
        match self.point {
            BuildPoint::Outer => if self.end < a.len() {
                (
                    BuildModel {
                        remaining: (self.remaining + 1) as usize,
                        point: BuildPoint::Inner,
                        ..self
                    },
                    BuildAction::Continue,
                )
            } else {
                (BuildModel { point: BuildPoint::Done, ..self }, BuildAction::Finished)
            },
            BuildPoint::Inner => if self.remaining == 0 {
                (
                    BuildModel { end: (self.end + 1) as usize, point: BuildPoint::Outer, ..self },
                    BuildAction::Continue,
                )
            } else if self.end == a.len() {
                (BuildModel { point: BuildPoint::Done, ..self }, BuildAction::PrintFinal)
            } else if self.phase == 1 {
                let b = a[self.end as int];
                if self.tree.child_of(self.active_node, b) is Some {
                    (
                        BuildModel { active_edge: Some(b), phase: 2, ..self },
                        BuildAction::Continue,
                    )
                } else {
                    (
                        BuildModel {
                            tree: self.tree.grown().put(
                                self.tree.slot(self.tree.order_of(self.active_node), b as int),
                                leaf_model(
                                    self.tree.range_of(self.active_node).start->Index_0
                                        + self.end,
                                    self.tree.size as int,
                                ),
                            ),
                            remaining: (self.remaining - 1) as usize,
                            ..self
                        },
                        BuildAction::Continue,
                    )
                }
            } else if self.phase == 2 {
                let current_end = a[self.end as int];
                let suffix_ele = a[self.suffix_index()];
                if suffix_ele == current_end {
                    (
                        BuildModel {
                            active_length: (self.active_length + 1) as usize,
                            end: (self.end + 1) as usize,
                            remaining: (self.remaining + 1) as usize,
                            ..self
                        },
                        BuildAction::Continue,
                    )
                } else {
                    let added = self.tree.add_node_result(
                        self.active_node,
                        self.active_edge->0,
                        self.split_config(a),
                    );
                    (
                        BuildModel {
                            tree: added.0,
                            internal_node: added.1 as usize,
                            current_end,
                            point: BuildPoint::AfterSplit,
                            ..self
                        },
                        BuildAction::PrintTree,
                    )
                }
            } else {
                (self, BuildAction::Continue)
            },
            BuildPoint::AfterSplit => {
                let linked = match self.added_internal {
                    Some(last) => self.tree.put(
                        last as int,
                        NodeModel {
                            link: LinkNode::Internal(self.internal_node),
                            ..self.tree.nodes[last as int]->0
                        },
                    ),
                    None => self.tree,
                };
                let remaining = self.remaining - 1;
                let active_length = self.active_length - 1;
                let active_edge = a[self.end - active_length];
                if remaining == 1 {
                    (
                        BuildModel {
                            tree: linked.grown().put(
                                linked.slot(0, self.current_end as int),
                                leaf_model(
                                    linked.root.range.start->Index_0 + self.end,
                                    linked.size as int,
                                ),
                            ),
                            added_internal: Some(self.internal_node),
                            remaining: 0,
                            active_length: active_length as usize,
                            active_edge: Some(active_edge),
                            phase: 1,
                            point: BuildPoint::Inner,
                            ..self
                        },
                        BuildAction::Continue,
                    )
                } else {
                    (
                        BuildModel {
                            tree: linked,
                            added_internal: Some(self.internal_node),
                            remaining: remaining as usize,
                            active_length: active_length as usize,
                            active_edge: Some(active_edge),
                            point: BuildPoint::Inner,
                            ..self
                        },
                        BuildAction::Continue,
                    )
                }
            },
            BuildPoint::Done => (self, BuildAction::Finished),
        }
    }
}

impl UkkonenBuild {
    pub closed spec fn model(&self) -> BuildModel {
        BuildModel {
            tree: self.tree@,
            remaining: self.remaining,
            active_node: self.active_node,
            active_length: self.active_length,
            active_edge: self.active_edge,
            added_internal: self.added_internal,
            phase: self.phase,
            end: self.end,
            point: self.point,
            internal_node: self.internal_node,
            current_end: self.current_end,
        }
    }
}


impl UkkonenTree {
    /// Whether `pos` names the root or a stored node whose children lie in
    /// the table.
    fn position_ok(&self, pos: Option<usize>) -> (r: bool)
        requires
            self@.wf(),
        ensures
            r == self@.position_ok(pos),
    {
        match pos {
            None => true,
            Some(i) => {
                if i < self.nodes.len() {
                    match &self.nodes[i] {
                        Some(n) => n.order < self.size,
                        None => false,
                    }
                } else {
                    false
                }
            },
        }
    }

    /// Whether `add_node(pos, key, config)` can run.
    fn add_node_ok(&self, pos: Option<usize>, key: u8, config: &AddNodeConfig) -> (r: bool)
        requires
            self@.wf(),
            self@.position_ok(pos),
        ensures
            r == self@.add_node_ok(pos, key, *config),
    {
        let h = self.child_hash(pos, key);
        proof {
            assert(slot_view(self.nodes@[h as int]) == self@.nodes[h as int]);
        }
        let c = match &self.nodes[h] {
            Some(c) => c,
            None => {
                return false;
            },
        };
        let start = c.range.get_start();
        if config.branch_len > usize::MAX - start || self.size > usize::MAX / 256 - 2 {
            return false;
        }
        let cut = start + config.branch_len;
        match c.range.end {
            EdgeIndex::End => cut >= 1,
            EdgeIndex::Index(e) => {
                if cut <= e {
                    cut >= 1
                } else {
                    true
                }
            },
        }
    }

    /// The child for `key` of the node that `pos` names.
    fn child_node(&self, pos: Option<usize>, key: u8) -> (c: &UNode)
        requires
            self@.wf(),
            self@.position_ok(pos),
            self@.child_of(pos, key) is Some,
        ensures
            c@ == self@.child_of(pos, key)->0,
    {
        let h = self.child_hash(pos, key);
        let c = self.nodes[h].as_ref().unwrap();
        proof {
            assert(slot_view(self.nodes@[h as int]) == self@.nodes[h as int]);
        }
        c
    }

    /// The table position of a node, or `None` when the position is empty or
    /// past the end of the table.
    pub fn node_at(&self, i: usize) -> (n: Option<&UNode>)
        ensures
            i < self@.nodes.len() ==> (n is Some <==> self@.nodes[i as int] is Some),
            n matches Some(x) ==> self@.nodes[i as int] == Some(x@),
            i >= self@.nodes.len() ==> n is None,
    {
        if i < self.nodes.len() {
            proof {
                assert(slot_view(self.nodes@[i as int]) == self@.nodes[i as int]);
            }
            self.nodes[i].as_ref()
        } else {
            None
        }
    }

    /// The number of slots per node order.
    pub fn width(&self) -> (w: usize)
        ensures
            w == self@.width,
    {
        self.width
    }
}

impl UkkonenBuild {
    /// The state before the first byte of the text has been read.
    pub fn new() -> (b: UkkonenBuild)
        ensures
            b@.tree.wf(),
            b@.tree == initial_tree(),
            b@.remaining == 0,
            b@.active_node is None,
            b@.active_length == 0,
            b@.active_edge is None,
            b@.added_internal is None,
            b@.phase == 1,
            b@.end == 0,
            b@.point == BuildPoint::Outer,
            b@.internal_node == 0,
            b@.current_end == 0,
    {
        UkkonenBuild {
            tree: UkkonenTree::new(),
            remaining: 0,
            active_node: None,
            active_length: 0,
            active_edge: None,
            added_internal: None,
            phase: 1,
            end: 0,
            point: BuildPoint::Outer,
            internal_node: 0,
            current_end: 0,
        }
    }

    /// The tree built so far.
    pub fn tree(&self) -> (t: &UkkonenTree)
        ensures
            t@ == self@.tree,
    {
        &self.tree
    }

    /// Whether the next step can be taken on `array` without an access out
    /// of bounds, an overflow or the unwrapping of something absent.
    pub fn step_ok(&self, array: &Vec<u8>) -> (r: bool)
        requires
            self@.tree.wf(),
        ensures
            r == self@.step_ok(array@),
    {
        match self.point {
            BuildPoint::Outer => !(self.end < array.len()) || self.remaining < usize::MAX,
            BuildPoint::Inner => {
                if self.remaining == 0 {
                    self.end < usize::MAX
                } else if self.end == array.len() {
                    true
                } else if self.phase == 1 {
                    if !(self.end < array.len()) || !self.tree.position_ok(self.active_node) {
                        return false;
                    }
                    let range = self.tree.get_node_range(self.active_node);
                    proof {
                        if let Some(i) = self.active_node {
                            assert(self@.tree.nodes[i as int] is Some);
                        }
                    }
                    let start = range.get_start();
                    if self.end > usize::MAX - start {
                        return false;
                    }
                    self.tree.has_child(self.active_node, array[self.end]) || self.tree.size
                        <= usize::MAX / 256 - 1
                } else if self.phase == 2 {
                    if !(self.end < array.len()) || self.active_edge.is_none()
                        || !self.tree.position_ok(self.active_node) {
                        return false;
                    }
                    let edge = self.active_edge.unwrap();
                    if !self.tree.has_child(self.active_node, edge) {
                        return false;
                    }
                    let child = self.tree.child_node(self.active_node, edge);
                    proof {
                        let h = self@.tree.slot(self@.tree.order_of(self@.active_node), edge as int);
                        assert(self@.tree.nodes[h] is Some);
                    }
                    let start = child.range.get_start();
                    if start > array.len() || self.active_length >= array.len() - start {
                        return false;
                    }
                    let suffix_index = start + self.active_length;
                    if array[suffix_index] == array[self.end] {
                        self.active_length < usize::MAX && self.remaining < usize::MAX
                    } else {
                        let config = AddNodeConfig {
                            branch_len: self.active_length,
                            tree_ele: array[suffix_index],
                            arr_ele: array[self.end],
                            arr_index: self.end,
                        };
                        self.tree.add_node_ok(self.active_node, edge, &config)
                    }
                } else {
                    true
                }
            },
            BuildPoint::AfterSplit => {
                let linked_ok = match self.added_internal {
                    Some(last) => last < self.tree.nodes.len() && self.tree.nodes[last].is_some(),
                    None => true,
                };
                if !linked_ok || self.remaining < 1 || self.active_length < 1 || !(
                self.active_length - 1 <= self.end) || !(self.end < array.len()) {
                    return false;
                }
                if self.remaining - 1 == 1 {
                    let start = self.tree.root.range.get_start();
                    self.end <= usize::MAX - start && self.tree.size <= usize::MAX / 256 - 1
                } else {
                    true
                }
            },
            BuildPoint::Done => true,
        }
    }
}


impl UkkonenBuild {
    /// Takes one step of the construction of the tree of `array`, and says
    /// what the caller must do next.
    pub fn step(&mut self, array: &Vec<u8>) -> (action: BuildAction)
        requires
            old(self)@.tree.wf(),
            old(self)@.step_ok(array@),
        ensures
            final(self)@.tree.wf(),
            (final(self)@, action) == old(self)@.step_result(array@),
    {
        match self.point {
            BuildPoint::Outer => {
                if self.end < array.len() {
                    self.remaining += 1;
                    self.point = BuildPoint::Inner;
                    BuildAction::Continue
                } else {
                    self.point = BuildPoint::Done;
                    BuildAction::Finished
                }
            },
            BuildPoint::Inner => {
                if self.remaining == 0 {
                    self.end += 1;
                    self.point = BuildPoint::Outer;
                    BuildAction::Continue
                } else if self.end == array.len() {
                    self.point = BuildPoint::Done;
                    BuildAction::PrintFinal
                } else if self.phase == 1 {
                    let curr_end_item = array[self.end];
                    // if the active node does not have this child
                    let has_key = self.tree.node_has_child(self.active_node, curr_end_item);
                    if !has_key {
                        self.tree.add_leaf_to(self.active_node, curr_end_item, self.end);
                        self.remaining -= 1;
                    } else {
                        self.active_edge = Some(curr_end_item);
                        self.phase = 2;
                    }
                    BuildAction::Continue
                } else if self.phase == 2 {
                    let current_end = array[self.end];
                    let suffix_index = self.tree.represented_index(
                        self.active_node,
                        self.active_edge.unwrap(),
                        self.active_length,
                    );
                    let current_suffix_ele = array[suffix_index];
                    if current_suffix_ele == current_end {
                        self.active_length += 1;
                        self.end += 1;
                        self.remaining += 1;
                        BuildAction::Continue
                    } else {
                        // the active edge ends its match here: split it
                        let config = AddNodeConfig {
                            branch_len: self.active_length,
                            tree_ele: current_suffix_ele,
                            arr_ele: current_end,
                            arr_index: self.end,
                        };
                        let edge = self.active_edge.unwrap();
                        let internal_node = self.tree.add_node(self.active_node, edge, config);
                        self.internal_node = internal_node;
                        self.current_end = current_end;
                        self.point = BuildPoint::AfterSplit;
                        BuildAction::PrintTree
                    }
                } else {
                    BuildAction::Continue
                }
            },
            BuildPoint::AfterSplit => {
                // link the previously split node to this one
                if let Some(last_added_hash) = self.added_internal {
                    self.tree.update_link(last_added_hash, self.internal_node);
                }
                self.added_internal = Some(self.internal_node);
                self.remaining -= 1;
                self.active_length -= 1;
                self.active_edge = Some(array[self.end - self.active_length]);
                // with one suffix left, it becomes a new leaf of the root
                if self.remaining == 1 {
                    self.tree.add_leaf_to(None, self.current_end, self.end);
                    self.remaining -= 1;
                    self.phase = 1;
                }
                self.point = BuildPoint::Inner;
                BuildAction::Continue
            },
            BuildPoint::Done => BuildAction::Finished,
        }
    }
}


/// `m` is lexicographically smaller than `n`.
pub open spec fn measure_lt(m: (int, int, int, int, int), n: (int, int, int, int, int)) -> bool {
    ||| m.0 < n.0
    ||| m.0 == n.0 && m.1 < n.1
    ||| m.0 == n.0 && m.1 == n.1 && m.2 < n.2
    ||| m.0 == n.0 && m.1 == n.1 && m.2 == n.2 && m.3 < n.3
    ||| m.0 == n.0 && m.1 == n.1 && m.2 == n.2 && m.3 == n.3 && m.4 < n.4
}

/// The construction terminates: from a state that keeps `build_inv`, a step
/// keeps it, and either finishes (the state is `Done`) or strictly decreases
/// `measure`, whose first component is never negative and whose others are
/// bounded below.
pub proof fn lemma_step_progress(m: BuildModel, a: Seq<u8>)
    requires
        a.len() <= usize::MAX,
        m.build_inv(a),
        m.step_ok(a),
        !(m.point is Done),
    ensures
        m.step_result(a).0.build_inv(a),
        m.step_result(a).0.point is Done || measure_lt(
            m.step_result(a).0.measure(a),
            m.measure(a),
        ),
        m.step_result(a).0.measure(a).0 >= 0,
{
}

/// Once the construction is `Done`, every further step changes nothing and
/// says `Finished`.
pub proof fn lemma_done_is_final(m: BuildModel, a: Seq<u8>)
    requires
        m.point is Done,
    ensures
        m.step_result(a) == (m, BuildAction::Finished),
{
}

/// Four spaces for each level of depth.
pub open spec fn indent(depth: nat) -> Seq<char>
    decreases depth,
{
    if depth == 0 {
        Seq::empty()
    } else {
        indent((depth - 1) as nat) + "    "@
    }
}

/// The line that names the node `n` at table position `i`.
pub open spec fn id_line(i: int, depth: nat, n: NodeModel) -> Seq<char> {
    indent(depth) + "id: "@ + decimal(i as nat) + ", "@ + range_text(n.range)
}

/// The line that shows the suffix link of the internal node `n`.
pub open spec fn link_line(depth: nat, n: NodeModel) -> Seq<char> {
    indent(depth) + " linked to "@ + link_text(n.link)
}

/// The texts of a list of lines.
pub open spec fn texts(lines: Seq<String>) -> Seq<Seq<char>> {
    lines.map_values(|s: String| s@)
}

/// The lines that show the node at table position `i`, `depth` levels
/// below the root: its id line; for an internal node also its link line
/// and, while `fuel` lasts, the lines of its children.
pub open spec fn node_lines(t: TreeModel, i: int, depth: nat, fuel: nat) -> Seq<Seq<char>>
    decreases fuel, 0int, 0int,
{
    if 0 <= i < t.nodes.len() && t.nodes[i] is Some {
        let n = t.nodes[i]->0;
        if n.range.end is End {
            seq![id_line(i, depth, n)]
        } else if fuel == 0 {
            seq![id_line(i, depth, n), link_line(depth, n)]
        } else {
            seq![id_line(i, depth, n), link_line(depth, n)] + block_lines(
                t,
                n.order * 256,
                0,
                depth + 1,
                (fuel - 1) as nat,
            )
        }
    } else {
        Seq::empty()
    }
}

/// The lines that show the nodes at positions `b + k` up to `b + 255`.
pub open spec fn block_lines(t: TreeModel, b: int, k: int, depth: nat, fuel: nat) -> Seq<Seq<char>>
    decreases fuel, 1int, 256 - k,
{
    if 0 <= k < 256 {
        node_lines(t, b + k, depth, fuel) + block_lines(t, b, k + 1, depth, fuel)
    } else {
        Seq::empty()
    }
}

/// The lines that show the tree: the root's range, then its children and
/// their descendants, each indented by its depth.  A node is shown at most
/// `size` levels below the root.
pub open spec fn shown_lines(t: TreeModel) -> Seq<Seq<char>> {
    seq!["Root range: "@ + range_text(t.root.range)] + block_lines(t, 0, 0, 1, t.size)
}

/// Four spaces for each level of depth.
fn indent_string(depth: usize) -> (s: String)
    ensures
        s@ == indent(depth as nat),
{
    let mut s = String::new();
    let mut k: usize = 0;
    while k < depth
        invariant
            k <= depth,
            s@ == indent(k as nat),
        decreases depth - k,
    {
        s = s.concat("    ");
        k += 1;
    }
    s
}

proof fn lemma_texts_push(lines: Seq<String>, s: String)
    ensures
        texts(lines.push(s)) == texts(lines) + seq![s@],
{
    assert(texts(lines.push(s)) =~= texts(lines) + seq![s@]);
}

impl UkkonenTree {
    /// Appends the lines that show the node at position `i`.
    fn push_node_lines(&self, i: usize, depth: usize, fuel: usize, lines: &mut Vec<String>)
        requires
            self@.wf(),
            depth + fuel < usize::MAX,
        ensures
            texts(final(lines)@) == texts(old(lines)@) + node_lines(
                self@,
                i as int,
                depth as nat,
                fuel as nat,
            ),
        decreases fuel, 0int, 0int,
    {
        if i >= self.nodes.len() {
            proof {
                assert(texts(lines@) =~= texts(lines@) + Seq::<Seq<char>>::empty());
            }
            return ;
        }
        proof {
            assert(slot_view(self.nodes@[i as int]) == self@.nodes[i as int]);
        }
        let node = match &self.nodes[i] {
            Some(n) => n,
            None => {
                proof {
                    assert(texts(lines@) =~= texts(lines@) + Seq::<Seq<char>>::empty());
                }
                return ;
            },
        };
        let ghost n = node@;
        let ghost before = texts(lines@);
        let id = indent_string(depth).concat("id: ").concat(decimal_string(i).as_str()).concat(
            ", ",
        ).concat(node.range.to_str().as_str());
        proof {
            lemma_texts_push(lines@, id);
        }
        lines.push(id);
        // an external node has no link and no children
        if self.is_leaf(i) {
            return ;
        }
        let link = indent_string(depth).concat(" linked to ").concat(
            link_to_str(&node.link).as_str(),
        );
        proof {
            lemma_texts_push(lines@, link);
        }
        lines.push(link);
        if fuel == 0 {
            return ;
        }
        let block = self.hash(node.order, 0);
        proof {
            assert(node.order * 256 + 256 <= self@.size * 256) by (nonlinear_arith)
                requires
                    node.order < self@.size,
            ;
        }
        let ghost mid = texts(lines@);
        self.push_block_lines(block, 0, depth + 1, fuel - 1, lines);
        proof {
            assert(texts(lines@) =~= before + node_lines(self@, i as int, depth as nat, fuel as nat));
        }
    }

    /// Appends the lines that show the nodes at positions `b + k` up to
    /// `b + 255`.
    fn push_block_lines(&self, b: usize, k: usize, depth: usize, fuel: usize, lines: &mut Vec<String>)
        requires
            self@.wf(),
            b + 256 <= self@.nodes.len(),
            k <= 256,
            depth + fuel < usize::MAX,
        ensures
            texts(final(lines)@) == texts(old(lines)@) + block_lines(
                self@,
                b as int,
                k as int,
                depth as nat,
                fuel as nat,
            ),
        decreases fuel, 1int, 256 - k,
    {
        if k >= 256 {
            proof {
                assert(texts(lines@) =~= texts(lines@) + Seq::<Seq<char>>::empty());
            }
            return ;
        }
        let ghost before = texts(lines@);
        proof {
            assert(self.nodes@.len() == self.nodes.len());
        }
        self.push_node_lines(b + k, depth, fuel, lines);
        self.push_block_lines(b, k + 1, depth, fuel, lines);
        proof {
            assert(texts(lines@) =~= before + block_lines(
                self@,
                b as int,
                k as int,
                depth as nat,
                fuel as nat,
            ));
        }
    }

    /// The lines that show the tree: the root's range, then every node below
    /// the root, each after the node it hangs from and indented by its depth.
    pub fn tree_lines(&self) -> (lines: Vec<String>)
        requires
            self@.wf(),
        ensures
            texts(lines@) == shown_lines(self@),
    {
        let mut lines: Vec<String> = Vec::new();
        let root_line = String::from_str("Root range: ").concat(unpack_range(&self.root.range).as_str());
        proof {
            lemma_texts_push(lines@, root_line);
            assert(texts(lines@) =~= Seq::<Seq<char>>::empty());
        }
        lines.push(root_line);
        proof {
            assert(self.nodes@.len() == self.nodes.len());
        }
        self.push_block_lines(0, 0, 1, self.size, &mut lines);
        lines
    }
}


/// A split files each edge under its first byte.  When the text byte at
/// `end` disagrees with the tree's byte at the cut, inside an edge of the
/// active child (or along its open edge), the block that receives the
/// edges below the cut holds, under the text's byte at `end`, a new leaf
/// starting at `end`, and under the tree's byte at the cut, the rest of the
/// old edge starting at the cut; the slot of the active child is the node
/// recorded as just split.
pub proof fn lemma_split_files_edges_by_first_byte(m: BuildModel, a: Seq<u8>)
    requires
        m.tree.wf(),
        m.step_ok(a),
        m.point is Inner,
        m.remaining > 0,
        m.end < a.len(),
        m.phase == 2,
        a[m.suffix_index()] != a[m.end as int],
        m.active_child().range.end matches EdgeIndex::Index(e) ==> m.suffix_index() <= e,
    ensures
        ({
            let c = m.active_child();
            let cut = m.suffix_index();
            let next = m.step_result(a).0;
            let block = if c.range.end is End {
                c.order as int
            } else {
                m.tree.size as int
            };
            let new_leaf = next.tree.nodes[next.tree.slot(block, a[m.end as int] as int)];
            let rest = next.tree.nodes[next.tree.slot(block, a[cut] as int)];
            &&& new_leaf is Some
            &&& new_leaf->0.range == Range {
                start: EdgeIndex::Index(m.end),
                end: EdgeIndex::End,
            }
            &&& rest is Some
            &&& rest->0.range == Range { start: EdgeIndex::Index(cut as usize), end: c.range.end }
            &&& next.internal_node == m.tree.slot(
                m.tree.order_of(m.active_node),
                m.active_edge->0 as int,
            )
        }),
{
    let t = m.tree;
    let h = t.slot(t.order_of(m.active_node), m.active_edge->0 as int);
    let c = t.nodes[h]->0;
    assert(t.nodes[h] is Some);
    assert(node_fits(c, t.size));
    let config = m.split_config(a);
    if c.range.end is End {
        let t1 = t.put(h, NodeModel {
            range: Range {
                start: c.range.start,
                end: EdgeIndex::Index((c.range.start->Index_0 + config.branch_len - 1) as usize),
            },
            link: LinkNode::Root,
            ..c
        });
        let t2 = t1.with_new_leaf(c.order as int, config.arr_ele as int, config.arr_index as int);
        let t3 = t2.with_new_leaf(
            c.order as int,
            config.tree_ele as int,
            c.range.start->Index_0 + config.branch_len,
        );
        assert(t3 == t.split_at(h, config));
        assert(t2.nodes.len() == (t.size + 1) * 256);
        assert(t2.slot(c.order as int, config.arr_ele as int) < t2.nodes.len());
        assert(t3.nodes[t3.slot(c.order as int, config.arr_ele as int)] == t2.nodes[t2.slot(
            c.order as int,
            config.arr_ele as int,
        )]);
    } else {
        let t4 = t.cut_inside(h, config);
        assert(t4.nodes.len() == (t.size + 2) * 256);
    }
}

/// When the disagreement falls at or past the end of an internal edge, the
/// new leaf for the text's byte at `end` starts at `end` and is filed under
/// that byte: below the active child when the disagreement falls just past
/// its end, below the active child's child for the tree's byte otherwise
/// (when that child exists: when it is missing, a leaf for the tree's byte
/// takes its place, and those states are left out).  The node it hangs from
/// is the one recorded as just split.
pub proof fn lemma_overrun_files_new_leaf_by_first_byte(m: BuildModel, a: Seq<u8>)
    requires
        m.tree.wf(),
        m.step_ok(a),
        m.point is Inner,
        m.remaining > 0,
        m.end < a.len(),
        m.phase == 2,
        a[m.suffix_index()] != a[m.end as int],
        m.active_child().range.end matches EdgeIndex::Index(e) && m.suffix_index() > e,
        m.suffix_index() > m.active_child().range.end->Index_0 + 1 ==> m.tree.nodes[m.tree.slot(
            m.active_child().order as int,
            a[m.suffix_index()] as int,
        )] is Some,
    ensures
        ({
            let c = m.active_child();
            let h = m.tree.slot(m.tree.order_of(m.active_node), m.active_edge->0 as int);
            let below = m.tree.slot(c.order as int, a[m.suffix_index()] as int);
            let (parent, block) = if m.suffix_index() == c.range.end->Index_0 + 1 {
                (h, c.order as int)
            } else {
                (below, m.tree.nodes[below]->0.order as int)
            };
            let next = m.step_result(a).0;
            let new_leaf = next.tree.nodes[next.tree.slot(block, a[m.end as int] as int)];
            &&& next.internal_node == parent
            &&& new_leaf is Some
            &&& new_leaf->0.range == Range { start: EdgeIndex::Index(m.end), end: EdgeIndex::End }
        }),
{
    let t = m.tree;
    let h = t.slot(t.order_of(m.active_node), m.active_edge->0 as int);
    let c = t.nodes[h]->0;
    assert(t.nodes[h] is Some);
    assert(node_fits(c, t.size));
    let below = t.slot(c.order as int, a[m.suffix_index()] as int);
    if m.suffix_index() > c.range.end->Index_0 + 1 {
        assert(node_fits(t.nodes[below]->0, t.size));
    }
}

/// After a split taken while an earlier split node is recorded, that node's
/// suffix link leads to the node just split, the rest of it is unchanged,
/// and the node just split becomes the recorded one.  (When the step also
/// hangs its new leaf of the root in the recorded node's own slot, the
/// leaf takes that slot: those states are left out.)
pub proof fn lemma_split_links_previous(m: BuildModel, a: Seq<u8>, last: usize)
    requires
        m.tree.wf(),
        m.step_ok(a),
        m.point is AfterSplit,
        m.added_internal == Some(last),
        !(m.remaining - 1 == 1 && last as int == m.current_end as int),
    ensures
        ({
            let next = m.step_result(a).0;
            let before = m.tree.nodes[last as int]->0;
            &&& next.tree.nodes[last as int] == Some(
                NodeModel { link: LinkNode::Internal(m.internal_node), ..before },
            )
            &&& next.added_internal == Some(m.internal_node)
        }),
{
}

/// The lines that show a block of nodes, from its `j`-th slot on, include
/// the id line of each node stored there.
proof fn lemma_block_shows_node(t: TreeModel, b: int, j: int, k: int, depth: nat, fuel: nat)
    requires
        0 <= j <= k < 256,
        0 <= b + k < t.nodes.len(),
        t.nodes[b + k] is Some,
    ensures
        block_lines(t, b, j, depth, fuel).contains(id_line(b + k, depth, t.nodes[b + k]->0)),
    decreases k - j,
{
    let line = id_line(b + k, depth, t.nodes[b + k]->0);
    let head = node_lines(t, b + j, depth, fuel);
    let tail = block_lines(t, b, j + 1, depth, fuel);
    assert(block_lines(t, b, j, depth, fuel) == head + tail);
    if j == k {
        assert(head[0] == line);
        assert((head + tail)[0] == line);
    } else {
        lemma_block_shows_node(t, b, j + 1, k, depth, fuel);
        let i = choose|i: int| 0 <= i < tail.len() && tail[i] == line;
        assert((head + tail)[head.len() + i] == line);
    }
}

/// Every stored child of the root is shown, one level below the root.
pub proof fn lemma_root_children_shown(t: TreeModel, k: int)
    requires
        t.wf(),
        0 <= k < 256,
        t.nodes[k] is Some,
    ensures
        shown_lines(t).contains(id_line(k, 1, t.nodes[k]->0)),
{
    lemma_block_shows_node(t, 0, 0, k, 1, t.size);
    let tail = block_lines(t, 0, 0, 1, t.size);
    let head = seq!["Root range: "@ + range_text(t.root.range)];
    let i = choose|i: int| 0 <= i < tail.len() && tail[i] == id_line(k, 1, t.nodes[k]->0);
    assert((head + tail)[1 + i] == id_line(k, 1, t.nodes[k]->0));
}

} // verus!
