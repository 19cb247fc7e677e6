use longest_bytes::locate::{
    current_search_for_byte, found_locations, locations_from, search_for_in, SearchFor,
};
use longest_bytes::reader::ParsedFile;
use longest_bytes::search;

#[test]
pub fn search_full() {
    let search_in: Vec<u8> = vec![1, 0, 1, 1, 0, 1, 0, 0, 0, 0, 1, 1, 0, 1, 1, 1, 1, 1];
    let search_for = SearchFor {
        bytes: &search_in,
        start: 0,
        stop: search_in.len() - 1,
    };

    let result = search_for_in(&search_in, &search_for);
    assert_eq!(result, Some(0));
}

#[test]
pub fn search_partial_1() {
    let search_in: Vec<u8> = vec![1, 0, 1, 1, 0, 1, 0, 0, 0, 0, 1, 1, 0, 1, 1, 1, 1, 1];
    let search_for = SearchFor {
        bytes: &search_in,
        start: 1,
        stop: search_in.len() - 1,
    };

    let result = search_for_in(&search_in, &search_for);
    assert_eq!(result, Some(1));
}

#[test]
pub fn search_partial_front() {
    let search_in: Vec<u8> = vec![1, 2, 3, 4, 5, 6, 7, 8, 9, 10, 11, 12, 13, 14, 15, 16, 17, 18];
    for i in 2..search_in.len() {
        let search_for = SearchFor {
            bytes: &search_in,
            start: i,
            stop: search_in.len() - 1,
        };

        let result = search_for_in(&search_in, &search_for);
        assert_eq!(result, Some(i));
    }
}

#[test]
pub fn search_partial_back() {
    let search_in: Vec<u8> = vec![1, 2, 3, 4, 5, 6, 7, 8, 9, 10, 11, 12, 13, 14, 15, 16, 17, 18];
    for i in (0..search_in.len()).rev() {
        let search_for = SearchFor {
            bytes: &search_in,
            start: 0,
            stop: i,
        };

        let result = search_for_in(&search_in, &search_for);
        assert_eq!(result, Some(0));
    }
}

#[test]
pub fn search_for_in_shorter_text() {
    let source: Vec<u8> = vec![1, 2, 3, 4];
    let search_for = SearchFor { bytes: &source, start: 0, stop: 3 };
    assert_eq!(search_for_in(&vec![1, 2, 3], &search_for), None);
}

#[test]
pub fn search_for_in_finds_overlapping_start() {
    // a byte that breaks a partial match may start the strand itself
    let source: Vec<u8> = vec![1, 1, 2];
    let search_for = SearchFor { bytes: &source, start: 0, stop: 2 };
    assert_eq!(search_for_in(&vec![1, 1, 1, 2], &search_for), Some(1));
    assert_eq!(search_for_in(&vec![5, 1, 1, 2], &search_for), Some(1));
    let short: Vec<u8> = vec![1, 2];
    let pair = SearchFor { bytes: &short, start: 0, stop: 1 };
    assert_eq!(search_for_in(&vec![1, 1, 2], &pair), Some(1));
}

#[test]
pub fn search_for_in_reports_first_occurrence_or_none() {
    let source: Vec<u8> = vec![9, 3, 4, 9];
    let search_for = SearchFor { bytes: &source, start: 1, stop: 2 };
    assert_eq!(search_for_in(&vec![3, 4, 0, 3, 4], &search_for), Some(0));
    assert_eq!(search_for_in(&vec![0, 3, 0, 3, 4], &search_for), Some(3));
    assert_eq!(search_for_in(&vec![4, 3, 0, 4, 3], &search_for), None);
}

#[test]
pub fn search_for_byte_offsets() {
    let source: Vec<u8> = vec![10, 20, 30];
    let search_for = SearchFor { bytes: &source, start: 1, stop: 2 };
    assert_eq!(current_search_for_byte(&search_for, 0), 20);
    assert_eq!(current_search_for_byte(&search_for, 1), 30);
}

#[test]
pub fn locations_of_a_result() {
    let f1 = ParsedFile::new("one", "", vec![1, 2, 3]);
    let f2 = ParsedFile::new("two", "", vec![0, 2, 3]);
    let res = search(&f1, &f2);
    let locs = locations_from(&res);
    assert_eq!(locs.len(), 2);
    assert_eq!(locs[0].filename, "one");
    assert_eq!(locs[0].start_pos, 1);
    assert_eq!(locs[1].filename, "two");
    assert_eq!(locs[1].start_pos, 1);
    let found = found_locations("x", 4, "y", 7);
    assert_eq!(found[0].filename, "x");
    assert_eq!(found[0].start_pos, 4);
    assert_eq!(found[1].filename, "y");
    assert_eq!(found[1].start_pos, 7);
}
