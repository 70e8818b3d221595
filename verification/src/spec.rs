//! Mathematical model of multi-pattern matching.
//!
//! Patterns and texts are byte strings (`Seq<u8>`). A pattern set is a
//! `Seq<Seq<u8>>`; the position of a pattern in that sequence is its id.
use vstd::prelude::*;
use vstd::string::StringSliceAdditionalSpecFns;

use crate::Match;

verus! {

/// `s` is a prefix of `t`.
pub open spec fn is_prefix(s: Seq<u8>, t: Seq<u8>) -> bool {
    s.len() <= t.len() && t.subrange(0, s.len() as int) == s
}

/// The suffix of `w` of length `len` (for `0 <= len <= w.len()`).
pub open spec fn suffix(w: Seq<u8>, len: int) -> Seq<u8> {
    w.subrange(w.len() - len, w.len() as int)
}

/// `s` is a state of the automaton built from `pats`: the empty string or a
/// prefix of some pattern.
pub open spec fn in_trie(pats: Seq<Seq<u8>>, s: Seq<u8>) -> bool {
    s.len() == 0 || exists|p: int| 0 <= p < pats.len() && #[trigger] is_prefix(s, pats[p])
}

/// The set of all states of the automaton built from `pats`.
pub open spec fn trie_states(pats: Seq<Seq<u8>>) -> Set<Seq<u8>> {
    Set::new(|s: Seq<u8>| in_trie(pats, s))
}

/// `g` is the longest suffix of `w` that is a state.
pub open spec fn longest_state_suffix(pats: Seq<Seq<u8>>, w: Seq<u8>, g: Seq<u8>) -> bool {
    &&& g.len() <= w.len()
    &&& suffix(w, g.len() as int) == g
    &&& in_trie(pats, g)
    &&& forall|len: int| g.len() < len <= w.len() ==> !#[trigger] in_trie(pats, suffix(w, len))
}

/// The ids `p < n` with `pats[p] == t`, in increasing order.
pub open spec fn ids_equal(pats: Seq<Seq<u8>>, t: Seq<u8>, n: nat) -> Seq<usize>
    decreases n,
{
    if n == 0 {
        seq![]
    } else {
        let rest = ids_equal(pats, t, (n - 1) as nat);
        if pats[n - 1] == t {
            rest.push((n - 1) as usize)
        } else {
            rest
        }
    }
}

/// The ids of all patterns that are suffixes of `w`: longest patterns first,
/// and among patterns of one length, in increasing order of id.
pub open spec fn suffix_ids(pats: Seq<Seq<u8>>, w: Seq<u8>) -> Seq<usize>
    decreases w.len(),
{
    if w.len() == 0 {
        ids_equal(pats, w, pats.len())
    } else {
        ids_equal(pats, w, pats.len()) + suffix_ids(pats, w.drop_first())
    }
}

/// The matches that end at position `end`, one per id in `ids`.
pub open spec fn matches_ending_at(pats: Seq<Seq<u8>>, ids: Seq<usize>, end: nat) -> Seq<Match> {
    Seq::new(
        ids.len(),
        |k: int|
            Match {
                pattern_id: ids[k],
                start: (end - pats[ids[k] as int].len()) as usize,
                end: end as usize,
            },
    )
}

/// Every occurrence of every pattern in `text`: ordered by end position, and
/// at one end position longest pattern first, then by pattern id. The empty
/// pattern occurs at every position, `0` and `text.len()` included.
pub open spec fn all_matches(pats: Seq<Seq<u8>>, text: Seq<u8>) -> Seq<Match>
    decreases text.len(),
{
    let earlier = if text.len() == 0 {
        Seq::<Match>::empty()
    } else {
        all_matches(pats, text.drop_last())
    };
    earlier + matches_ending_at(pats, suffix_ids(pats, text), text.len())
}

/// Pattern `m.pattern_id` occurs in `text` at `m.start..m.end`.
pub open spec fn is_occurrence(pats: Seq<Seq<u8>>, text: Seq<u8>, m: Match) -> bool {
    &&& m.pattern_id < pats.len()
    &&& m.end <= text.len()
    &&& m.start + pats[m.pattern_id as int].len() == m.end
    &&& text.subrange(m.start as int, m.end as int) == pats[m.pattern_id as int]
}

/// The matches of the patterns with ids below `n`.
pub open spec fn match_below(n: nat) -> spec_fn(Match) -> bool {
    |m: Match| m.pattern_id < n
}

/// The sum of the lengths of the patterns.
pub open spec fn total_len(pats: Seq<Seq<u8>>) -> nat
    decreases pats.len(),
{
    if pats.len() == 0 {
        0
    } else {
        total_len(pats.drop_last()) + pats.last().len()
    }
}

/// The byte encodings of a sequence of string slices.
pub open spec fn str_bytes(strs: Seq<&str>) -> Seq<Seq<u8>> {
    strs.map_values(|s: &str| s.spec_bytes())
}

} // verus!
