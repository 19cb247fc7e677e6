//! Locating a known strand in other files, and the list of places where the
//! longest strand was found.
use vstd::prelude::*;
use crate::SearchResult;
use crate::suffix_tree::occurs_at;

verus! {

/// The strand `bytes[start..=stop]` to look for.
pub struct SearchFor<'a> {
    pub bytes: &'a Vec<u8>,
    pub start: usize,
    pub stop: usize,
}

/// A file in which the strand was found, and where it starts there.
#[derive(Debug)]
pub struct SequenceLocation {
    pub filename: String,
    pub start_pos: usize,
}

/// The bytes that `search_for` names.
pub open spec fn target_of(search_for: &SearchFor) -> Seq<u8> {
    search_for.bytes@.subrange(search_for.start as int, search_for.stop + 1)
}

/// The byte at `offset` in the strand that `search_for` names.
pub fn current_search_for_byte(search_for: &SearchFor, offset: usize) -> (b: u8)
    requires
        search_for.start + offset < search_for.bytes.len(),
    ensures
        b == search_for.bytes@[search_for.start + offset],
{
    search_for.bytes[search_for.start + offset]
}

/// Looks for the strand that `search_for` names in `search_in`: `None`
/// when it does not occur there, else `Some` of the first position where it
/// starts.  An empty strand (`start == stop + 1`) is looked for only in an
/// empty text, and is not found there.
pub fn search_for_in(search_in: &Vec<u8>, search_for: &SearchFor) -> (r: Option<usize>)
    requires
        search_for.start <= search_for.stop + 1,
        search_for.stop < search_for.bytes.len(),
        search_for.start == search_for.stop + 1 ==> search_in.len() == 0,
    ensures
        search_for.start > search_for.stop ==> r is None,
        search_for.start <= search_for.stop ==> {
            &&& r matches Some(p) ==> {
                &&& occurs_at(target_of(search_for), search_in@, p as int)
                &&& forall|q: int|
                    0 <= q < p ==> !#[trigger] occurs_at(target_of(search_for), search_in@, q)
            }
            &&& r is None ==> forall|q: int|
                !#[trigger] occurs_at(target_of(search_for), search_in@, q)
        },
{
    if search_for.start > search_for.stop {
        return None;
    }
    let ghost target = target_of(search_for);
    let ghost text = search_in@;
    let target_len = search_for.stop - search_for.start + 1;
    if target_len > search_in.len() {
        return None;
    }
    let last = search_in.len() - target_len;
    let mut i: usize = 0;
    while i <= last
        invariant
            target_len == target.len(),
            target_len <= search_in.len(),
            last == search_in.len() - target_len,
            text == search_in@,
            target == target_of(search_for),
            search_for.start <= search_for.stop < search_for.bytes.len(),
            i <= last + 1,
            forall|q: int| 0 <= q < i ==> !#[trigger] occurs_at(target, text, q),
        decreases last + 1 - i,
    {
        let mut t: usize = 0;
        while t < target_len && search_in[i + t] == current_search_for_byte(search_for, t)
            invariant
                target_len == target.len(),
                i <= last,
                last == search_in.len() - target_len,
                text == search_in@,
                target == target_of(search_for),
                search_for.start <= search_for.stop < search_for.bytes.len(),
                t <= target_len,
                text.subrange(i as int, i + t) =~= target.subrange(0, t as int),
            decreases target_len - t,
        {
            proof {
                assert(target[t as int] == search_for.bytes@[search_for.start + t]);
                assert(text.subrange(i as int, i + t + 1) =~= text.subrange(i as int, i + t).push(
                    text[i + t],
                ));
                assert(target.subrange(0, t + 1) =~= target.subrange(0, t as int).push(
                    target[t as int],
                ));
            }
            t += 1;
        }
        if t == target_len {
            proof {
                assert(target.subrange(0, t as int) =~= target);
            }
            return Some(i);
        }
        proof {
            assert(target[t as int] == search_for.bytes@[search_for.start + t]);
            if occurs_at(target, text, i as int) {
                assert(text.subrange(i as int, i + target.len())[t as int] == text[i + t]);
                assert(target.subrange(0, t as int + 1)[t as int] == target[t as int]);
            }
        }
        i += 1;
    }
    None
}

/// The two places where the longest strand was first found.
pub fn found_locations(name1: &str, pos1: usize, name2: &str, pos2: usize) -> (results: Vec<
    SequenceLocation,
>)
    ensures
        results@.len() == 2,
        results@[0].filename@ == name1@,
        results@[0].start_pos == pos1,
        results@[1].filename@ == name2@,
        results@[1].start_pos == pos2,
{
    let mut results: Vec<SequenceLocation> = Vec::new();
    results.push(SequenceLocation { filename: String::from_str(name1), start_pos: pos1 });
    results.push(SequenceLocation { filename: String::from_str(name2), start_pos: pos2 });
    results
}

/// The two places that a search result names.
pub fn locations_from(max_res: &SearchResult) -> (results: Vec<SequenceLocation>)
    ensures
        results@.len() == 2,
        results@[0].filename@ == max_res.name1_view(),
        results@[0].start_pos == max_res.start1_view(),
        results@[1].filename@ == max_res.name2_view(),
        results@[1].start_pos == max_res.start2_view(),
{
    let mut results: Vec<SequenceLocation> = Vec::new();
    results.push(SequenceLocation { filename: max_res.name1(), start_pos: max_res.offset1() });
    results.push(SequenceLocation { filename: max_res.name2(), start_pos: max_res.offset2() });
    results
}

} // verus!
