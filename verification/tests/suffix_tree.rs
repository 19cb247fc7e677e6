use longest_bytes::suffix_tree::SuffixTree;

#[test]
pub fn create() {
    let arr: Vec<u8> = vec![0, 0, 1];
    let tree = SuffixTree::create_from(&arr);
    assert!(!tree.is_empty());
    println!("{:?}", tree);
}

#[test]
pub fn contains() {
    let arr: Vec<u8> = vec![0, 0, 1, 1, 1, 0, 0, 1, 0, 0, 1, 0, 0];
    let tree = SuffixTree::create_from(&arr);

    let tests: Vec<Vec<u8>> = vec![
        vec![1, 1, 0, 0, 1],
        vec![1, 1, 0, 0, 1, 0],
        vec![0, 0, 1],
        vec![0, 0, 1, 1, 1],
        vec![0, 0, 1, 1, 1, 0, 0, 1, 0, 0, 1, 0, 0],
        vec![1, 1, 0, 1, 0, 1],
    ];
    assert!(tree.has(&tests[0]));
    assert!(tree.has(&tests[1]));
    assert!(tree.has(&tests[2]));
    assert!(tree.has(&tests[3]));
    assert!(tree.has(&tests[4])); // contains the whole arr
    assert!(!tree.has(&tests[5]))
}

#[test]
pub fn contains_sub() {
    let from: Vec<u8> = vec![0, 0, 1, 1, 1, 0, 0, 1, 0, 0, 1, 0, 0];
    let test: Vec<u8> = vec![0, 0, 1, 1, 1, 0, 0, 1, 0, 0, 1, 0, 0];
    let tree = SuffixTree::create_from(&from);

    assert!(tree.contains_sub(&test, 0, from.len() - 1));
    assert!(tree.contains_sub(&test, 1, 1));
    assert!(tree.contains_sub(&test, 1, 6));
    assert!(tree.contains_sub(&test, 1, 6));
    assert!(tree.contains_sub(&test, 5, 10));
    assert!(tree.contains_sub(&test, 5, 10));
    assert!(tree.contains_sub(&test, 0, 0));
    assert!(tree.contains_sub(&test, from.len() - 1, from.len() - 1));
}

#[test]
pub fn new_tree_is_empty_until_added_to() {
    let mut tree = SuffixTree::new();
    assert!(tree.is_empty());
    assert!(tree.has(&vec![]));
    assert!(!tree.has(&vec![4]));
    tree.add(4);
    assert!(!tree.is_empty());
    assert!(tree.has(&vec![4]));
    tree.add(4);
    assert!(!tree.has(&vec![4, 4]));
}

#[test]
pub fn add_suffix_adds_its_prefixes() {
    let mut tree = SuffixTree::new();
    let arr: Vec<u8> = vec![1, 2, 3, 4];
    tree.add_suffix(&arr, 1);
    assert!(tree.has(&vec![2, 3, 4]));
    assert!(tree.has(&vec![2, 3]));
    assert!(!tree.has(&vec![3, 4]));
    assert!(!tree.has(&vec![1, 2]));
    tree.add_suffix(&arr, 10);
    assert!(!tree.has(&vec![1]));
}

#[test]
pub fn contains_sub_rejects_missing_strand() {
    let tree = SuffixTree::create_from(&vec![1, 2, 3]);
    let probe: Vec<u8> = vec![1, 3, 2, 3];
    assert!(!tree.contains_sub(&probe, 0, 1));
    assert!(tree.contains_sub(&probe, 2, 3));
    assert!(!tree.contains_sub(&probe, 1, 2));
}
