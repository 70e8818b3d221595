//! The Aho-Corasick automaton and its searches.
use vstd::prelude::*;

use crate::lemmas::{lemma_lts_extend, lemma_lts_self, lemma_suffix_ids_skip, lemma_suffix_ids_sound};
use crate::links::{build_links, fail_ok, fails_of, goto_ok, outs_of, row_ok, rows_of};
use crate::spec::{
    all_matches, longest_state_suffix, matches_ending_at, str_bytes, suffix_ids, total_len,
    trie_states,
};
use crate::trie::{build_trie, children_of, lemma_node_strings, pats_view, trie_wf, Node};
use crate::laws::law_prefix_reported_first;
use crate::Match;

verus! {

/// Aho-Corasick automaton for multi-pattern searching.
pub struct AhoCorasick {
    nodes: Vec<Node>,
    patterns: Vec<Vec<u8>>,
    goto: Vec<Vec<usize>>,
    strs: Ghost<Seq<Seq<u8>>>,
    par: Ghost<Seq<usize>>,
}

impl View for AhoCorasick {
    type V = Seq<Seq<u8>>;

    /// The patterns, in the order they were given.
    closed spec fn view(&self) -> Seq<Seq<u8>> {
        pats_view(self.patterns@)
    }
}

impl AhoCorasick {
    /// Node `x` stands for the string `strs[x]`; its transitions, failure
    /// link and output list are those of the Aho-Corasick automaton of the
    /// patterns.
    #[verifier::type_invariant]
    spec fn wf(self) -> bool {
        let p = pats_view(self.patterns@);
        let n = self.nodes@.len();
        &&& trie_wf(p, children_of(self.nodes@), self.strs@, self.par@)
        &&& p.len() <= usize::MAX
        &&& self.goto@.len() == n
        &&& forall|x: int| 0 <= x < n ==> #[trigger] row_ok(p, rows_of(self.goto@), self.strs@, x)
        &&& forall|x: int| 0 < x < n ==> #[trigger] fail_ok(p, fails_of(self.nodes@), self.strs@, x)
        &&& forall|x: int| 0 <= x < n ==> #[trigger] outs_of(self.nodes@)[x] == suffix_ids(p, self.strs@[x])
    }

    /// Build the automaton from a list of patterns.
    pub fn new(patterns: &[&str]) -> (ac: Self)
        requires
            total_len(str_bytes(patterns@)) < usize::MAX,
        ensures
            ac@ == str_bytes(patterns@),
    {
        let mut pats: Vec<&[u8]> = Vec::new();
        for i in 0..patterns.len()
            invariant
                pats@.len() == i,
                forall|k: int| 0 <= k < i ==> (#[trigger] pats@[k])@ == str_bytes(patterns@)[k],
        {
            pats.push(patterns[i].as_bytes());
        }
        proof {
            assert(pats@.map_values(|p: &[u8]| p@) =~= str_bytes(patterns@));
        }
        Self::from_bytes(pats.as_slice())
    }

    /// Build the automaton from byte-string patterns.
    pub fn from_bytes(patterns: &[&[u8]]) -> (ac: Self)
        requires
            total_len(patterns@.map_values(|p: &[u8]| p@)) < usize::MAX,
        ensures
            ac@ == patterns@.map_values(|p: &[u8]| p@),
    {
        let ghost want = patterns@.map_values(|p: &[u8]| p@);
        let mut pats: Vec<Vec<u8>> = Vec::new();
        for i in 0..patterns.len()
            invariant
                want == patterns@.map_values(|p: &[u8]| p@),
                pats@.len() == i,
                forall|k: int| 0 <= k < i ==> (#[trigger] pats@[k])@ == want[k],
        {
            pats.push(vstd::slice::slice_to_vec(patterns[i]));
        }
        proof {
            assert(pats_view(pats@) =~= want);
        }
        // Phase 1: the trie; phase 2: failure links, transitions, outputs.
        let (mut nodes, Ghost(strs), Ghost(par)) = build_trie(&pats);
        let goto = build_links(&mut nodes, Ghost(pats_view(pats@)), Ghost(strs), Ghost(par));
        AhoCorasick { nodes, patterns: pats, goto, strs: Ghost(strs), par: Ghost(par) }
    }

    /// Appends to `matches` the matches ending at `end` reported by state
    /// `state`: one per id in its output list.
    fn report(&self, state: usize, end: usize, matches: &mut Vec<Match>)
        requires
            state < self.nodes@.len(),
            self.strs@[state as int].len() <= end,
        ensures
            final(matches)@ == old(matches)@ + matches_ending_at(
                self@,
                suffix_ids(self@, self.strs@[state as int]),
                end as nat,
            ),
    {
        proof {
            use_type_invariant(self);
        }
        let ghost p = self@;
        let ghost before = matches@;
        let ghost ids = suffix_ids(p, self.strs@[state as int]);
        proof {
            assert(outs_of(self.nodes@)[state as int] == ids);
            lemma_suffix_ids_sound(p, self.strs@[state as int]);
        }
        let out = &self.nodes[state].output;
        assert(out@ == ids);
        for k in 0..out.len()
            invariant
                p == self@,
                p == pats_view(self.patterns@),
                out@ == ids,
                forall|j: int|
                    0 <= j < ids.len() ==> {
                        let q = #[trigger] ids[j];
                        &&& q < p.len()
                        &&& p[q as int].len() <= end
                    },
                matches@ == before + matches_ending_at(p, ids.take(k as int), end as nat),
        {
            let pid = out[k];
            let pat_len = self.patterns[pid].len();
            assert(pat_len == p[pid as int].len());
            matches.push(Match { pattern_id: pid, start: end - pat_len, end: end });
            proof {
                assert(matches_ending_at(p, ids.take(k + 1), end as nat) =~= matches_ending_at(
                    p,
                    ids.take(k as int),
                    end as nat,
                ).push(Match { pattern_id: pid, start: (end - pat_len) as usize, end: end }));
            }
        }
        proof {
            assert(ids.take(ids.len() as int) =~= ids);
        }
    }

    /// Find all pattern occurrences in `text`.
    pub fn find_all(&self, text: &[u8]) -> (matches: Vec<Match>)
        ensures
            matches@ == all_matches(self@, text@),
    {
        proof {
            use_type_invariant(self);
        }
        let ghost p = self@;
        let mut state: usize = 0;
        let mut matches: Vec<Match> = Vec::new();
        // The empty patterns occur before the first byte.
        self.report(0, 0, &mut matches);
        proof {
            lemma_lts_self(p, Seq::<u8>::empty());
            assert(text@.take(0) =~= Seq::<u8>::empty());
            assert(matches@ =~= all_matches(p, text@.take(0)));
        }
        for i in 0..text.len()
            invariant
                p == self@,
                state < self.nodes@.len(),
                longest_state_suffix(p, text@.take(i as int), self.strs@[state as int]),
                matches@ == all_matches(p, text@.take(i as int)),
        {
            proof {
                use_type_invariant(self);
            }
            let b = text[i];
            let ghost prev = state;
            proof {
                assert(row_ok(p, rows_of(self.goto@), self.strs@, state as int));
                assert(goto_ok(p, rows_of(self.goto@), self.strs@, state as int, b as int));
            }
            state = self.goto[state][b as usize];
            let ghost w = text@.take(i + 1);
            proof {
                assert(w =~= text@.take(i as int).push(b));
                lemma_lts_extend(p, text@.take(i as int), self.strs@[prev as int], b, self.strs@[state as int]);
                lemma_suffix_ids_skip(p, w, self.strs@[state as int]);
                assert(w.drop_last() =~= text@.take(i as int));
            }
            self.report(state, i + 1, &mut matches);
        }
        proof {
            assert(text@.take(text.len() as int) =~= text@);
        }
        matches
    }

    /// Returns true if `text` contains any of the patterns.
    pub fn contains(&self, text: &[u8]) -> (found: bool)
        ensures
            found == (all_matches(self@, text@).len() > 0),
    {
        proof {
            use_type_invariant(self);
        }
        let ghost p = self@;
        let mut state: usize = 0;
        proof {
            lemma_lts_self(p, Seq::<u8>::empty());
            assert(text@.take(0) =~= Seq::<u8>::empty());
            assert(outs_of(self.nodes@)[0] == suffix_ids(p, self.strs@[0]));
        }
        // The empty text contains every empty pattern.
        if !self.nodes[0].output.is_empty() {
            proof {
                law_prefix_reported_first(p, text@, 0);
            }
            return true;
        }
        for i in 0..text.len()
            invariant
                p == self@,
                state < self.nodes@.len(),
                longest_state_suffix(p, text@.take(i as int), self.strs@[state as int]),
                all_matches(p, text@.take(i as int)).len() == 0,
        {
            proof {
                use_type_invariant(self);
            }
            let b = text[i];
            let ghost prev = state;
            proof {
                assert(row_ok(p, rows_of(self.goto@), self.strs@, state as int));
                assert(goto_ok(p, rows_of(self.goto@), self.strs@, state as int, b as int));
            }
            state = self.goto[state][b as usize];
            let ghost w = text@.take(i + 1);
            proof {
                assert(w =~= text@.take(i as int).push(b));
                lemma_lts_extend(p, text@.take(i as int), self.strs@[prev as int], b, self.strs@[state as int]);
                lemma_suffix_ids_skip(p, w, self.strs@[state as int]);
                assert(outs_of(self.nodes@)[state as int] == suffix_ids(p, self.strs@[state as int]));
                assert(w.drop_last() =~= text@.take(i as int));
            }
            if !self.nodes[state].output.is_empty() {
                proof {
                    law_prefix_reported_first(p, text@, i + 1);
                }
                return true;
            }
        }
        proof {
            assert(text@.take(text.len() as int) =~= text@);
        }
        false
    }

    /// Count total occurrences of all patterns in `text`.
    pub fn count(&self, text: &[u8]) -> (n: usize)
        ensures
            n == all_matches(self@, text@).len(),
    {
        self.find_all(text).len()
    }

    /// Returns the number of patterns.
    pub fn num_patterns(&self) -> (n: usize)
        ensures
            n == self@.len(),
    {
        self.patterns.len()
    }

    /// Returns the number of trie nodes (automaton states).
    pub fn num_states(&self) -> (n: usize)
        ensures
            trie_states(self@).finite(),
            n == trie_states(self@).len(),
    {
        proof {
            use_type_invariant(self);
            let p = self@;
            lemma_node_strings(p, children_of(self.nodes@), self.strs@, self.par@);
            self.strs@.unique_seq_to_set();
            assert(trie_states(p) == self.strs@.to_set());
        }
        self.nodes.len()
    }
}

} // verus!
