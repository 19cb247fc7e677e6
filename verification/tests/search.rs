use longest_bytes::reader::ParsedFile;
use longest_bytes::{cubed_search, polynomial_search, search, suffix_tree_search, BestStrand};

fn sample_files() -> (ParsedFile, ParsedFile) {
    let bytes1: Vec<u8> = vec![7, 1, 2, 3, 4, 9, 9, 1, 2, 3, 4, 5, 6, 0];
    let bytes2: Vec<u8> = vec![5, 5, 1, 2, 3, 4, 5, 6, 8, 1, 2, 3];
    (
        ParsedFile::new("sample.1", "./", bytes1),
        ParsedFile::new("sample.2", "./", bytes2),
    )
}

#[test]
pub fn test_cubed() {
    let (parsed1, parsed2) = sample_files();
    let res = cubed_search(&parsed1, &parsed2);
    println!("res: {:?}", res);
    assert_eq!(res.length(), 6);
    assert_eq!(res.offset1(), 7);
    assert_eq!(res.offset2(), 2);
    assert_eq!(res.name1(), "sample.1");
    assert_eq!(res.name2(), "sample.2");
}

#[test]
pub fn test_poly() {
    let (parsed1, parsed2) = sample_files();
    let res = polynomial_search(&parsed1, &parsed2);
    println!("res: {:?}", res);
    assert_eq!(res.length(), 6);
    assert_eq!(res.offset1(), 7);
    assert_eq!(res.offset2(), 2);
}

#[test]
pub fn searches_agree_on_first_of_equal_strands() {
    // two strands of length 3 in common: [1, 2, 3] and [4, 5, 6]
    let f1 = ParsedFile::new("a", "", vec![4, 5, 6, 0, 1, 2, 3]);
    let f2 = ParsedFile::new("b", "", vec![1, 2, 3, 9, 4, 5, 6]);
    let c = cubed_search(&f1, &f2);
    let p = polynomial_search(&f1, &f2);
    let s = search(&f1, &f2);
    for r in [&c, &p, &s] {
        assert_eq!(r.length(), 3);
        assert_eq!(r.offset1(), 0);
        assert_eq!(r.offset2(), 4);
    }
}

#[test]
pub fn search_without_common_byte() {
    let f1 = ParsedFile::new("a", "", vec![1, 2, 3]);
    let f2 = ParsedFile::new("b", "", vec![4, 5]);
    let c = cubed_search(&f1, &f2);
    let p = polynomial_search(&f1, &f2);
    assert_eq!((c.length(), c.offset1(), c.offset2()), (0, 0, 0));
    assert_eq!((p.length(), p.offset1(), p.offset2()), (0, 0, 0));
}

#[test]
pub fn search_with_empty_files() {
    let f1 = ParsedFile::new("a", "", vec![]);
    let f2 = ParsedFile::new("b", "", vec![1, 2]);
    let c = cubed_search(&f1, &f2);
    let p = polynomial_search(&f2, &f1);
    assert_eq!((c.length(), c.offset1(), c.offset2()), (0, 0, 0));
    assert_eq!((p.length(), p.offset1(), p.offset2()), (0, 0, 0));
}

#[test]
pub fn search_whole_file_in_other() {
    let f1 = ParsedFile::new("a", "", vec![3, 3, 3]);
    let f2 = ParsedFile::new("b", "", vec![1, 3, 3, 3, 3]);
    let c = cubed_search(&f1, &f2);
    let p = polynomial_search(&f1, &f2);
    assert_eq!((c.length(), c.offset1(), c.offset2()), (3, 0, 1));
    assert_eq!((p.length(), p.offset1(), p.offset2()), (3, 0, 1));
}

#[test]
pub fn suffix_tree_search_finds_first_longest_strand() {
    let f1 = ParsedFile::new("a", "", vec![9, 8, 2, 7, 1]);
    let f2 = ParsedFile::new("b", "", vec![1, 2, 3]);
    let r = suffix_tree_search(&f1, &f2);
    assert_eq!((r.length(), r.offset1(), r.offset2()), (1, 2, 1));
    let none = suffix_tree_search(&ParsedFile::new("a", "", vec![9]), &f2);
    assert_eq!((none.length(), none.offset1(), none.offset2()), (0, 0, 0));
    let (parsed1, parsed2) = sample_files();
    let long = suffix_tree_search(&parsed1, &parsed2);
    assert_eq!((long.length(), long.offset1(), long.offset2()), (6, 7, 2));
    let g1 = ParsedFile::new("a", "", vec![4, 5, 6, 0, 1, 2, 3]);
    let g2 = ParsedFile::new("b", "", vec![1, 2, 3, 9, 4, 5, 6]);
    let tie = suffix_tree_search(&g1, &g2);
    assert_eq!((tie.length(), tie.offset1(), tie.offset2()), (3, 0, 4));
    assert_eq!(tie.name1(), "a");
}

#[test]
pub fn parsed_file_paths() {
    assert_eq!(ParsedFile::full_path("./", "sample.1"), "./sample.1");
    let f = ParsedFile::new("sample.1", "./", vec![1, 2]);
    assert_eq!(f.name(), "sample.1");
    assert_eq!(f.bytes(), &vec![1u8, 2]);
}

#[test]
pub fn best_strand_keeps_strictly_longer_results() {
    let (parsed1, parsed2) = sample_files();
    let res = search(&parsed1, &parsed2);
    let mut best = BestStrand::new();
    assert!(best.offer(0, 1, &res));
    assert_eq!((best.file1, best.file2, best.pos_1, best.pos_2, best.length), (0, 1, 7, 2, 6));
    // an equally long result does not replace the first one
    assert!(!best.offer(2, 3, &res));
    assert_eq!((best.file1, best.file2), (0, 1));
    let shorter = search(
        &ParsedFile::new("a", "", vec![1, 2]),
        &ParsedFile::new("b", "", vec![2]),
    );
    assert!(!best.offer(4, 5, &shorter));
    assert_eq!(best.length, 6);
}
