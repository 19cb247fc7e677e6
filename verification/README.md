# longest_bytes

Finds the longest strand of bytes that two or more files have in common, and
where it appears.

Layout:

- `src/strand.rs` — what a common strand is (`common_at`, `first_longest`),
  common prefixes and suffixes, and the lemmas that tie them together.
- `src/lib.rs` — `SearchResult` and the searches: `cubed_search` (every pair
  of start positions), `polynomial_search` (one row of a table of common
  suffixes), `suffix_tree_search` (a window over the first file looked up
  in a suffix trie of the second) and `search`; all four return the first
  longest common strand.
- `src/reader.rs` — `ParsedFile`: a file's name, directory and bytes.
- `src/suffix_tree.rs` — a suffix trie with 256 slots per node; its strands
  are exactly the strands of the text it was built from.
- `src/locate.rs` — the first place where a known strand occurs in a file,
  and the list of places where it was found.
- `src/ukkonen.rs` — a tree in a flat table of nodes, the lines that show
  it (`tree_lines`), and its construction as a step function
  (`UkkonenBuild::step`) that always makes progress and whose caller shows
  the tree when asked.
- `app/main.rs` — reading files, the threads that compare every pair of
  files, printing.
