use longest_bytes::ukkonen::{
    get_index, get_new_leaf_range, link_to_str, node_type_string, unpack_range, AddNodeConfig,
    BuildAction, EdgeIndex, LinkNode, NodeType, Range, UNode, UkkonenBuild, UkkonenTree,
};

/// Runs the construction of the tree of `test` to its end; returns how many
/// times the tree would have been shown, and the final state.
fn run(test: &Vec<u8>) -> (usize, UkkonenBuild) {
    let mut build = UkkonenBuild::new();
    let mut shown = 0;
    loop {
        assert!(build.step_ok(test));
        match build.step(test) {
            BuildAction::Continue => (),
            BuildAction::PrintTree => shown += 1,
            BuildAction::PrintFinal => {
                shown += 1;
                return (shown, build);
            }
            BuildAction::Finished => return (shown, build),
        }
    }
}

#[test]
pub fn create_tree() {
    // an analagous string:  x  y  z  x  y  a  x  y  z  $
    let test: Vec<u8> = vec![0, 1, 2, 0, 1, 3, 0, 1, 2, 4];
    let (shown, build) = run(&test);
    assert_eq!(shown, 5);
    let tree = build.tree();
    // every distinct byte has a child of the root
    for b in 0..5usize {
        assert!(tree.node_at(b).is_some());
    }
    assert!(tree.node_at(5).is_none());
    // the edges for 0 and 1 were cut to two bytes and to one byte
    assert_eq!(tree.node_at(0).unwrap().range.to_str(), "0 - 1");
    assert_eq!(tree.node_at(1).unwrap().range.to_str(), "1 - 1");
    assert_eq!(tree.node_at(2).unwrap().range.to_str(), "2 - 2");
    assert_eq!(tree.node_at(4).unwrap().range.to_str(), "9 - end");
}

#[test]
pub fn create_tree_of_repeated_byte_ends_inside_the_text() {
    let test: Vec<u8> = vec![7, 7, 7, 7];
    let (shown, build) = run(&test);
    // the whole text repeats its first byte: it ends with a final print
    assert_eq!(shown, 1);
    assert!(build.tree().node_at(7).is_some());
    assert_eq!(build.tree().node_at(7).unwrap().range.to_str(), "0 - end");
}

#[test]
pub fn create_tree_of_distinct_bytes_makes_root_leaves() {
    let test: Vec<u8> = vec![3, 1, 2];
    let (shown, build) = run(&test);
    assert_eq!(shown, 0);
    let tree = build.tree();
    assert_eq!(tree.node_at(3).unwrap().range.to_str(), "0 - end");
    assert_eq!(tree.node_at(1).unwrap().range.to_str(), "1 - end");
    assert_eq!(tree.node_at(2).unwrap().range.to_str(), "2 - end");
}

#[test]
pub fn range_operations() {
    let mut r = Range { start: EdgeIndex::Index(3), end: EdgeIndex::End };
    assert!(!r.has_end_index());
    assert_eq!(r.to_str(), "3 - end");
    r.set_end(Some(12));
    assert!(r.has_end_index());
    assert_eq!(r.length(), 10);
    assert_eq!(r.to_str(), "3 - 12");
    assert_eq!(unpack_range(&r), "3 - 12");
    r.set_start(5);
    assert_eq!(r.get_start(), 5);
    let c = Range::clone(&r);
    assert_eq!(c.to_str(), "5 - 12");
    r.set_end(None);
    assert_eq!(unpack_range(&r), "5 - end");
    assert!(matches!(node_type_string(&r), NodeType::Extenal));
    assert!(matches!(node_type_string(&c), NodeType::Internal));
    let leaf = get_new_leaf_range(&r, 4);
    assert_eq!(leaf.to_str(), "9 - end");
}

#[test]
pub fn link_texts() {
    assert_eq!(link_to_str(&LinkNode::Unlinked), "none");
    assert_eq!(link_to_str(&LinkNode::Root), "root");
    assert_eq!(link_to_str(&LinkNode::Internal(0)), "0");
    assert_eq!(link_to_str(&LinkNode::Internal(4096)), "4096");
}

#[test]
pub fn node_operations() {
    let mut n = UNode::new(
        Range { start: EdgeIndex::Index(2), end: EdgeIndex::Index(6) },
        LinkNode::Unlinked,
        3,
    );
    assert_eq!(n.length(), 5);
    assert_eq!(get_index(&n, 4), 6);
    n.set_link(LinkNode::Root);
    assert!(matches!(n.link, LinkNode::Root));
    assert!(!UkkonenTree::is_root(&n));
}

#[test]
pub fn tree_leaves_and_splits() {
    let mut tree = UkkonenTree::new();
    assert!(!tree.node_has_child(None, 9));
    tree.add_leaf_to(None, 9, 4);
    assert!(tree.node_has_child(None, 9));
    assert_eq!(tree.get_node_range(Some(9)).to_str(), "4 - end");
    assert_eq!(tree.node_range(9).to_str(), "4 - end");
    assert_eq!(tree.get_node_range(None).to_str(), "0 - end");
    assert_eq!(tree.represented_index(None, 9, 2), 6);
    // the new leaf took order 1: its children go in block 1
    let config = AddNodeConfig { branch_len: 2, tree_ele: 5, arr_ele: 6, arr_index: 8 };
    let r = tree.add_node(None, 9, config);
    assert_eq!(r, 9);
    assert_eq!(tree.node_range(9).to_str(), "4 - 5");
    assert!(matches!(tree.node_at(9).unwrap().link, LinkNode::Root));
    assert_eq!(tree.node_range(256 + 6).to_str(), "8 - end");
    assert_eq!(tree.node_range(256 + 5).to_str(), "6 - end");
    // each leaf of a split takes the size of the table after it grew
    assert_eq!(tree.node_at(256 + 6).unwrap().order, 3);
    assert_eq!(tree.node_at(256 + 5).unwrap().order, 4);
    assert_eq!(tree.size, 4);
    // a cut inside the edge of an internal child: a new node takes its place
    let again = AddNodeConfig { branch_len: 1, tree_ele: 0, arr_ele: 1, arr_index: 2 };
    assert_eq!(tree.add_node(None, 9, again), 9);
    assert_eq!(tree.node_range(9).to_str(), "4 - 4");
    assert_eq!(tree.node_at(9).unwrap().order, 4);
    assert_eq!(tree.node_range(4 * 256).to_str(), "5 - 5");
    assert_eq!(tree.node_at(4 * 256).unwrap().order, 1);
    assert_eq!(tree.node_range(4 * 256 + 1).to_str(), "2 - end");
    // a cut at the end of an internal child: a leaf for arr_ele below it
    let at_end = AddNodeConfig { branch_len: 1, tree_ele: 8, arr_ele: 7, arr_index: 20 };
    assert_eq!(tree.add_node(None, 9, at_end), 9);
    assert_eq!(tree.node_range(4 * 256 + 7).to_str(), "20 - end");
    // a cut past the end of an internal child: a leaf for tree_ele below it
    let past = AddNodeConfig { branch_len: 3, tree_ele: 8, arr_ele: 2, arr_index: 30 };
    assert_eq!(tree.add_node(None, 9, past), 9);
    assert_eq!(tree.node_range(4 * 256 + 8).to_str(), "30 - end");
    // past the end with the child for tree_ele present: the leaf hangs below it
    let into_rest = AddNodeConfig { branch_len: 3, tree_ele: 0, arr_ele: 5, arr_index: 40 };
    assert_eq!(tree.add_node(None, 9, into_rest), 4 * 256);
    let rest_order = tree.node_at(4 * 256).unwrap().order;
    assert_eq!(tree.node_range(rest_order * 256 + 5).to_str(), "40 - end");
    assert!(tree.index_is_child(9, 1, 0));
    assert!(!tree.index_is_child(9, 2, 0));
    assert!(!tree.index_is_child(9, 1, 200));
    assert!(!tree.index_is_child(3, 1, 0));
    tree.update_link(9, 262);
    assert!(matches!(tree.node_at(9).unwrap().link, LinkNode::Internal(262)));
    let h = tree.add_leaf(0, 3, 11);
    assert_eq!(h, 3);
    assert_eq!(tree.node_range(3).to_str(), "11 - end");
    assert!(!tree.index_is_child(0, 0, 0));
}

#[test]
pub fn tree_lines_show_nodes_by_depth() {
    let mut tree = UkkonenTree::new();
    tree.add_leaf_to(None, 9, 4);
    let config = AddNodeConfig { branch_len: 2, tree_ele: 5, arr_ele: 6, arr_index: 8 };
    tree.add_node(None, 9, config);
    let lines = tree.tree_lines();
    assert_eq!(
        lines,
        vec![
            "Root range: 0 - end".to_string(),
            "    id: 9, 4 - 5".to_string(),
            "     linked to root".to_string(),
            "        id: 261, 6 - end".to_string(),
            "        id: 262, 8 - end".to_string(),
        ]
    );
}

#[test]
pub fn new_leaves_take_fresh_orders() {
    let mut tree = UkkonenTree::new();
    tree.add_leaf_to(None, 1, 0);
    tree.add_leaf_to(None, 2, 1);
    assert_eq!(tree.node_at(1).unwrap().order, 1);
    assert_eq!(tree.node_at(2).unwrap().order, 2);
    assert_eq!(tree.size, 3);
    assert_eq!(tree.nodes.len(), 3 * 256);
}
