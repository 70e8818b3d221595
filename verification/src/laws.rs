//! What holds of the matches that the automaton reports, for every pattern
//! set and text.
//!
//! `AhoCorasick::find_all(text)` returns `all_matches(patterns, text)`,
//! `count` its length and `contains` whether it is nonempty; the laws below
//! say what that sequence is.
use vstd::prelude::*;

use crate::lemmas::{lemma_ids_equal_sound, lemma_suffix_ids_complete, lemma_suffix_ids_sound};
use crate::spec::{
    all_matches, ids_equal, is_occurrence, match_below, matches_ending_at, str_bytes, suffix,
    suffix_ids,
};
use crate::Match;
use vstd::string::StringSliceAdditionalSpecFns;

verus! {

/// A match is reported exactly when it is an occurrence: pattern
/// `m.pattern_id` is the text between `m.start` and `m.end`.
pub proof fn law_reported_iff_occurrence(pats: Seq<Seq<u8>>, text: Seq<u8>, m: Match)
    requires
        pats.len() <= usize::MAX,
        text.len() <= usize::MAX,
    ensures
        all_matches(pats, text).contains(m) <==> is_occurrence(pats, text, m),
    decreases text.len(),
{
    let n = text.len() as int;
    let t = text.drop_last();
    let prev = if n == 0 {
        Seq::<Match>::empty()
    } else {
        all_matches(pats, t)
    };
    let ids = suffix_ids(pats, text);
    let last = matches_ending_at(pats, ids, text.len());
    let all = all_matches(pats, text);
    if n > 0 {
        law_reported_iff_occurrence(pats, t, m);
    }
    lemma_suffix_ids_sound(pats, text);
    lemma_suffix_ids_complete(pats, text);
    assert(all == prev + last);
    if all.contains(m) {
        let i = choose|i: int| 0 <= i < all.len() && all[i] == m;
        if i < prev.len() {
            assert(prev[i] == m);
            assert(prev.contains(m));
            assert(t.subrange(m.start as int, m.end as int) =~= text.subrange(
                m.start as int,
                m.end as int,
            ));
        } else {
            let k = i - prev.len();
            assert(last[k] == m);
            let q = ids[k];
            assert(suffix(text, pats[q as int].len() as int) == pats[q as int]);
        }
    }
    if is_occurrence(pats, text, m) {
        if m.end < n {
            assert(t.subrange(m.start as int, m.end as int) =~= text.subrange(
                m.start as int,
                m.end as int,
            ));
            assert(is_occurrence(pats, t, m));
            let i = choose|i: int| 0 <= i < prev.len() && prev[i] == m;
            assert(all[i] == m);
        } else {
            let q = m.pattern_id;
            assert(suffix(text, pats[q as int].len() as int) == pats[q as int]);
            assert(ids.contains(q));
            let k = choose|k: int| 0 <= k < ids.len() && ids[k] == q;
            assert(last[k] == m);
            assert(all[prev.len() + k] == m);
        }
    }
}

/// No match is reported twice.
pub proof fn law_reported_once(pats: Seq<Seq<u8>>, text: Seq<u8>)
    requires
        pats.len() <= usize::MAX,
        text.len() <= usize::MAX,
    ensures
        all_matches(pats, text).no_duplicates(),
    decreases text.len(),
{
    let n = text.len() as int;
    let t = text.drop_last();
    let prev = if n == 0 {
        Seq::<Match>::empty()
    } else {
        all_matches(pats, t)
    };
    let ids = suffix_ids(pats, text);
    let last = matches_ending_at(pats, ids, text.len());
    let all = all_matches(pats, text);
    if n > 0 {
        law_reported_once(pats, t);
    }
    lemma_suffix_ids_complete(pats, text);
    assert(all == prev + last);
    assert forall|i: int, j: int| 0 <= i < all.len() && 0 <= j < all.len() && i != j implies all[i]
        != all[j] by {
        if i < prev.len() && j < prev.len() {
        } else if i >= prev.len() && j >= prev.len() {
            assert(ids[i - prev.len()] != ids[j - prev.len()]);
        } else if i < prev.len() {
            law_reported_iff_occurrence(pats, t, prev[i]);
            assert(prev.contains(prev[i]));
        } else {
            law_reported_iff_occurrence(pats, t, prev[j]);
            assert(prev.contains(prev[j]));
        }
    }
}

/// Matches are reported in order of their end position.
pub proof fn law_reported_by_end(pats: Seq<Seq<u8>>, text: Seq<u8>, i: int, j: int)
    requires
        pats.len() <= usize::MAX,
        text.len() <= usize::MAX,
        0 <= i <= j < all_matches(pats, text).len(),
    ensures
        all_matches(pats, text)[i].end <= all_matches(pats, text)[j].end,
    decreases text.len(),
{
    let t = text.drop_last();
    let prev = if text.len() == 0 {
        Seq::<Match>::empty()
    } else {
        all_matches(pats, t)
    };
    let all = all_matches(pats, text);
    assert(all == prev + matches_ending_at(pats, suffix_ids(pats, text), text.len()));
    if j < prev.len() {
        law_reported_by_end(pats, t, i, j);
    } else if i < prev.len() {
        law_reported_iff_occurrence(pats, t, prev[i]);
        assert(prev.contains(prev[i]));
    }
}

/// The number of reported matches is the number of occurrences.
pub proof fn law_count_is_occurrences(pats: Seq<Seq<u8>>, text: Seq<u8>)
    requires
        pats.len() <= usize::MAX,
        text.len() <= usize::MAX,
    ensures
        Set::new(|m: Match| is_occurrence(pats, text, m)).finite(),
        Set::new(|m: Match| is_occurrence(pats, text, m)).len() == all_matches(pats, text).len(),
{
    let all = all_matches(pats, text);
    law_reported_once(pats, text);
    assert forall|m: Match| all.to_set().contains(m) == is_occurrence(pats, text, m) by {
        law_reported_iff_occurrence(pats, text, m);
    }
    assert(all.to_set() =~= Set::new(|m: Match| is_occurrence(pats, text, m)));
    all.unique_seq_to_set();
}

/// Some match is reported exactly when some pattern occurs in the text.
pub proof fn law_some_reported_iff_occurs(pats: Seq<Seq<u8>>, text: Seq<u8>)
    requires
        pats.len() <= usize::MAX,
        text.len() <= usize::MAX,
    ensures
        (all_matches(pats, text).len() > 0) <==> exists|m: Match| is_occurrence(pats, text, m),
{
    let all = all_matches(pats, text);
    if all.len() > 0 {
        law_reported_iff_occurrence(pats, text, all[0]);
        assert(all.contains(all[0]));
    }
    if exists|m: Match| is_occurrence(pats, text, m) {
        let m = choose|m: Match| is_occurrence(pats, text, m);
        law_reported_iff_occurrence(pats, text, m);
    }
}

/// The matches reported for a prefix of the text are the first ones
/// reported for the whole text.
pub proof fn law_prefix_reported_first(pats: Seq<Seq<u8>>, text: Seq<u8>, j: int)
    requires
        0 <= j <= text.len(),
    ensures
        all_matches(pats, text.take(j)).len() <= all_matches(pats, text).len(),
        all_matches(pats, text).take(all_matches(pats, text.take(j)).len() as int) == all_matches(
            pats,
            text.take(j),
        ),
    decreases text.len() - j,
{
    if j == text.len() {
        assert(text.take(j) =~= text);
        assert(all_matches(pats, text).take(all_matches(pats, text).len() as int) =~= all_matches(
            pats,
            text,
        ));
    } else {
        let t = text.drop_last();
        assert(t.take(j) =~= text.take(j));
        law_prefix_reported_first(pats, t, j);
        let a = all_matches(pats, t);
        let pre = all_matches(pats, text.take(j));
        assert(all_matches(pats, text).take(pre.len() as int) =~= a.take(pre.len() as int));
    }
}

/// Reordering the patterns only renames the ids of the matches: with
/// `pats2[j] == pats[perm[j]]` for a permutation `perm`, the match of pattern
/// `j` is reported for `pats2` exactly when the same match of pattern
/// `perm[j]` is reported for `pats`, and every match reported for `pats` is
/// reported for `pats2` under the id that `perm` sends to it.
pub proof fn law_reorder_renames(
    pats: Seq<Seq<u8>>,
    pats2: Seq<Seq<u8>>,
    perm: Seq<usize>,
    text: Seq<u8>,
    m: Match,
)
    requires
        pats.len() <= usize::MAX,
        text.len() <= usize::MAX,
        pats2.len() == pats.len(),
        perm.len() == pats.len(),
        forall|j: int| 0 <= j < perm.len() ==> #[trigger] perm[j] < pats.len() && pats2[j] == pats[perm[j] as int],
        forall|i: usize| i < pats.len() ==> #[trigger] perm.contains(i),
    ensures
        all_matches(pats2, text).contains(m) <==> (m.pattern_id < pats2.len() && all_matches(
            pats,
            text,
        ).contains(Match { pattern_id: perm[m.pattern_id as int], start: m.start, end: m.end })),
        all_matches(pats, text).contains(m) ==> exists|j: int|
            0 <= j < perm.len() && perm[j] == m.pattern_id && all_matches(pats2, text).contains(
                Match { pattern_id: j as usize, start: m.start, end: m.end },
            ),
{
    law_reported_iff_occurrence(pats2, text, m);
    if m.pattern_id < pats2.len() {
        let r = Match { pattern_id: perm[m.pattern_id as int], start: m.start, end: m.end };
        assert(perm[m.pattern_id as int] < pats.len());
        law_reported_iff_occurrence(pats, text, r);
    }
    if all_matches(pats, text).contains(m) {
        law_reported_iff_occurrence(pats, text, m);
        assert(perm.contains(m.pattern_id));
        let j = choose|j: int| 0 <= j < perm.len() && perm[j] == m.pattern_id;
        let r = Match { pattern_id: j as usize, start: m.start, end: m.end };
        assert(perm[j] < pats.len());
        law_reported_iff_occurrence(pats2, text, r);
    }
}

/// The ids below `n`.
spec fn id_below(n: nat) -> spec_fn(usize) -> bool {
    |i: usize| i < n
}

/// A list of ids all below `n` keeps them all.
proof fn lemma_filter_all_below(ids: Seq<usize>, n: nat)
    requires
        forall|k: int| 0 <= k < ids.len() ==> #[trigger] ids[k] < n,
    ensures
        ids.filter(id_below(n)) == ids,
    decreases ids.len(),
{
    reveal(Seq::filter);
    if ids.len() > 0 {
        lemma_filter_all_below(ids.drop_last(), n);
        assert(ids.drop_last().push(ids.last()) =~= ids);
    }
}

/// An added pattern does not change the ids of the others equal to `t`.
proof fn lemma_ids_equal_push(pats: Seq<Seq<u8>>, q: Seq<u8>, t: Seq<u8>, n: nat)
    requires
        n <= pats.len(),
    ensures
        ids_equal(pats.push(q), t, n) == ids_equal(pats, t, n),
    decreases n,
{
    if n > 0 {
        lemma_ids_equal_push(pats, q, t, (n - 1) as nat);
        assert(pats.push(q)[n - 1] == pats[n - 1]);
    }
}

/// An added pattern adds at most its own id to those of the suffixes.
proof fn lemma_suffix_ids_push(pats: Seq<Seq<u8>>, q: Seq<u8>, w: Seq<u8>)
    requires
        pats.len() < usize::MAX,
    ensures
        suffix_ids(pats.push(q), w).filter(id_below(pats.len())) == suffix_ids(pats, w),
    decreases w.len(),
{
    let p2 = pats.push(q);
    let n = pats.len();
    lemma_ids_equal_push(pats, q, w, n);
    lemma_ids_equal_sound(pats, w, n);
    lemma_filter_all_below(ids_equal(pats, w, n), n);
    let own2 = ids_equal(p2, w, (n + 1) as nat);
    assert(own2.filter(id_below(n)) == ids_equal(pats, w, n)) by {
        reveal(Seq::filter);
        if p2[n as int] == w {
            assert(own2.drop_last() =~= ids_equal(pats, w, n));
        } else {
            assert(own2 == ids_equal(pats, w, n));
        }
    }
    if w.len() > 0 {
        lemma_suffix_ids_push(pats, q, w.drop_first());
        Seq::filter_distributes_over_add(own2, suffix_ids(p2, w.drop_first()), id_below(n));
    }
}

/// Keeping the matches of ids below `n` keeps the ids below `n`.
proof fn lemma_filter_matches(pats: Seq<Seq<u8>>, ids: Seq<usize>, end: nat, n: nat)
    ensures
        matches_ending_at(pats, ids, end).filter(match_below(n)) == matches_ending_at(
            pats,
            ids.filter(id_below(n)),
            end,
        ),
    decreases ids.len(),
{
    reveal(Seq::filter);
    if ids.len() > 0 {
        let init = ids.drop_last();
        lemma_filter_matches(pats, init, end, n);
        let ms = matches_ending_at(pats, ids, end);
        assert(ms.drop_last() =~= matches_ending_at(pats, init, end));
        let kept = init.filter(id_below(n));
        if ids.last() < n {
            assert(matches_ending_at(pats, kept.push(ids.last()), end) =~= matches_ending_at(
                pats,
                kept,
                end,
            ).push(ms.last()));
        }
    }
}

/// Adding a pattern leaves the matches of the others in place: keeping only
/// the matches of the first `pats.len()` ids gives the matches for `pats`,
/// in the same order.
pub proof fn law_append_keeps_matches(pats: Seq<Seq<u8>>, q: Seq<u8>, text: Seq<u8>)
    requires
        pats.len() < usize::MAX,
    ensures
        all_matches(pats.push(q), text).filter(match_below(pats.len())) == all_matches(pats, text),
    decreases text.len(),
{
    let p2 = pats.push(q);
    let n = pats.len();
    let ids2 = suffix_ids(p2, text);
    let ids = suffix_ids(pats, text);
    lemma_suffix_ids_push(pats, q, text);
    lemma_filter_matches(p2, ids2, text.len(), n);
    lemma_suffix_ids_sound(pats, text);
    assert(matches_ending_at(p2, ids, text.len()) =~= matches_ending_at(pats, ids, text.len())) by {
        assert forall|k: int| 0 <= k < ids.len() implies p2[ids[k] as int] == pats[ids[k] as int] by {
            assert(ids[k] < n);
        }
    }
    let prev2 = if text.len() == 0 {
        Seq::<Match>::empty()
    } else {
        all_matches(p2, text.drop_last())
    };
    let prev = if text.len() == 0 {
        Seq::<Match>::empty()
    } else {
        all_matches(pats, text.drop_last())
    };
    if text.len() > 0 {
        law_append_keeps_matches(pats, q, text.drop_last());
    } else {
        reveal(Seq::filter);
    }
    Seq::filter_distributes_over_add(prev2, matches_ending_at(p2, ids2, text.len()), match_below(n));
}

/// Building from strings is building from their UTF-8 bytes: the patterns
/// that `new` keeps are those that `from_bytes` keeps for the strings' bytes,
/// so every query answers alike.
pub proof fn law_new_is_from_bytes(strs: Seq<&str>, bytes: Seq<&[u8]>)
    requires
        bytes.len() == strs.len(),
        forall|i: int| 0 <= i < strs.len() ==> (#[trigger] bytes[i])@ == strs[i].spec_bytes(),
    ensures
        str_bytes(strs) == bytes.map_values(|p: &[u8]| p@),
{
    assert(str_bytes(strs) =~= bytes.map_values(|p: &[u8]| p@));
}

} // verus!
