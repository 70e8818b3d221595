# aho_corasick

Aho-Corasick multi-pattern byte-string matching, written in Verus with its
behaviour proved.

`AhoCorasick::new` (string patterns) and `AhoCorasick::from_bytes` (byte
patterns) build the automaton; `find_all` reports every occurrence of every
pattern, `contains` and `count` answer from the same matches, `num_patterns`
and `num_states` describe the automaton.

## Layout

- `src/spec.rs`: the model. `all_matches(patterns, text)` is the exact
  sequence that `find_all` returns: by end position, and at one end position
  longest pattern first, then by pattern id. The empty pattern occurs at
  every offset, `0` and the text's length included.
- `src/trie.rs`: the trie of the patterns (first construction phase).
- `src/links.rs`: failure links, the full transition table and merged output
  lists, built by a breadth-first walk (second phase), with the walk's
  invariant and its lemmas.
- `src/automaton.rs`: the `AhoCorasick` type, its type invariant and the
  searches.
- `src/lemmas.rs`: facts about states, suffixes and match lists.
- `src/laws.rs`: what holds of the reported matches for every input: each is
  an occurrence and each occurrence is reported, once, in order of end
  position; their number is the number of occurrences; reordering the
  patterns only renames ids; adding a pattern leaves the other matches in
  place.
- `tests/`: scenarios, and the laws checked on sample inputs against brute
  force.
- `app/main.rs`: a guided tour that prints what the library finds.
