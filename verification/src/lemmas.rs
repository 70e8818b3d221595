//! Facts about states, suffixes and match lists, used by the automaton's proofs.
use vstd::prelude::*;

use crate::spec::{
    ids_equal, in_trie, is_prefix, longest_state_suffix, suffix, suffix_ids,
};

verus! {

/// Every prefix of a state is a state.
pub proof fn lemma_state_prefix(pats: Seq<Seq<u8>>, s: Seq<u8>, k: int)
    requires
        in_trie(pats, s),
        0 <= k <= s.len(),
    ensures
        in_trie(pats, s.subrange(0, k)),
{
    if k > 0 {
        let p = choose|p: int| 0 <= p < pats.len() && #[trigger] is_prefix(s, pats[p]);
        assert(pats[p].subrange(0, k) =~= s.subrange(0, k));
        assert(is_prefix(s.subrange(0, k), pats[p]));
    }
}

/// A state extended by one byte that is a state has a state as its prefix.
pub proof fn lemma_state_push(pats: Seq<Seq<u8>>, s: Seq<u8>, b: u8)
    requires
        in_trie(pats, s.push(b)),
    ensures
        in_trie(pats, s),
{
    lemma_state_prefix(pats, s.push(b), s.len() as int);
    assert(s.push(b).subrange(0, s.len() as int) =~= s);
}

/// Every pattern is a state.
pub proof fn lemma_pattern_is_state(pats: Seq<Seq<u8>>, p: int)
    requires
        0 <= p < pats.len(),
    ensures
        in_trie(pats, pats[p]),
{
    assert(pats[p].subrange(0, pats[p].len() as int) =~= pats[p]);
    assert(is_prefix(pats[p], pats[p]));
}

/// A state is its own longest state suffix.
pub proof fn lemma_lts_self(pats: Seq<Seq<u8>>, w: Seq<u8>)
    requires
        in_trie(pats, w),
    ensures
        longest_state_suffix(pats, w, w),
{
    assert(suffix(w, w.len() as int) =~= w);
}

/// The empty suffix is the longest state suffix of a one-byte string that is
/// not a state.
pub proof fn lemma_lts_single(pats: Seq<Seq<u8>>, b: u8)
    requires
        !in_trie(pats, seq![b]),
    ensures
        longest_state_suffix(pats, Seq::<u8>::empty().push(b), Seq::<u8>::empty()),
{
    let w = Seq::<u8>::empty().push(b);
    assert(suffix(w, 0) =~= Seq::<u8>::empty());
    assert(suffix(w, 1) =~= seq![b]);
    assert forall|len: int| 0 < len <= w.len() implies !#[trigger] in_trie(pats, suffix(w, len)) by {
        assert(len == 1);
    }
}

/// Suffixes of `w.drop_first()` are suffixes of `w`.
pub proof fn lemma_suffix_drop_first(w: Seq<u8>, len: int)
    requires
        w.len() >= 1,
        0 <= len <= w.len() - 1,
    ensures
        suffix(w.drop_first(), len) == suffix(w, len),
{
    assert(suffix(w.drop_first(), len) =~= suffix(w, len));
}

/// Suffixes of `w.push(b)` are suffixes of `w` extended by `b`.
pub proof fn lemma_suffix_push(w: Seq<u8>, b: u8, len: int)
    requires
        1 <= len <= w.len() + 1,
    ensures
        suffix(w.push(b), len) == suffix(w, len - 1).push(b),
{
    assert(suffix(w.push(b), len) =~= suffix(w, len - 1).push(b));
}

/// A suffix of a suffix is a suffix.
pub proof fn lemma_suffix_suffix(w: Seq<u8>, l1: int, l2: int)
    requires
        0 <= l2 <= l1 <= w.len(),
    ensures
        suffix(suffix(w, l1), l2) == suffix(w, l2),
{
    assert(suffix(suffix(w, l1), l2) =~= suffix(w, l2));
}

/// If `f` is the longest state suffix of `w`, then the longest state suffix
/// of `f.push(b)` is the longest state suffix of `w.push(b)`.
pub proof fn lemma_lts_extend(pats: Seq<Seq<u8>>, w: Seq<u8>, f: Seq<u8>, b: u8, g: Seq<u8>)
    requires
        longest_state_suffix(pats, w, f),
        longest_state_suffix(pats, f.push(b), g),
    ensures
        longest_state_suffix(pats, w.push(b), g),
{
    let wb = w.push(b);
    let fb = f.push(b);
    assert(fb =~= suffix(wb, fb.len() as int));
    lemma_suffix_suffix(wb, fb.len() as int, g.len() as int);
    assert forall|len: int| g.len() < len <= wb.len() implies !#[trigger] in_trie(
        pats,
        suffix(wb, len),
    ) by {
        if len <= fb.len() {
            lemma_suffix_suffix(wb, fb.len() as int, len);
        } else {
            lemma_suffix_push(w, b, len);
            if in_trie(pats, suffix(wb, len)) {
                lemma_state_push(pats, suffix(w, len - 1), b);
                assert(in_trie(pats, suffix(w, len - 1)));
            }
        }
    }
}

/// If `w` is not a state, the longest state suffix of its tail is its own.
pub proof fn lemma_lts_not_state(pats: Seq<Seq<u8>>, w: Seq<u8>, g: Seq<u8>)
    requires
        w.len() >= 1,
        !in_trie(pats, w),
        longest_state_suffix(pats, w.drop_first(), g),
    ensures
        longest_state_suffix(pats, w, g),
{
    lemma_suffix_drop_first(w, g.len() as int);
    assert forall|len: int| g.len() < len <= w.len() implies !#[trigger] in_trie(
        pats,
        suffix(w, len),
    ) by {
        if len < w.len() {
            lemma_suffix_drop_first(w, len);
        } else {
            assert(suffix(w, len) =~= w);
        }
    }
}

/// The ids listed by `ids_equal` name patterns equal to `t`.
pub proof fn lemma_ids_equal_sound(pats: Seq<Seq<u8>>, t: Seq<u8>, n: nat)
    requires
        n <= pats.len() <= usize::MAX,
    ensures
        forall|k: int|
            0 <= k < ids_equal(pats, t, n).len() ==> {
                let p = #[trigger] ids_equal(pats, t, n)[k];
                p < n && pats[p as int] == t
            },
    decreases n,
{
    if n > 0 {
        let rest = ids_equal(pats, t, (n - 1) as nat);
        lemma_ids_equal_sound(pats, t, (n - 1) as nat);
        assert forall|k: int| 0 <= k < ids_equal(pats, t, n).len() implies {
            let p = #[trigger] ids_equal(pats, t, n)[k];
            p < n && pats[p as int] == t
        } by {
            if k < rest.len() {
                assert(ids_equal(pats, t, n)[k] == rest[k]);
            }
        }
    }
}

/// When no pattern below `n` equals `t`, no id is listed.
pub proof fn lemma_ids_equal_none(pats: Seq<Seq<u8>>, t: Seq<u8>, n: nat)
    requires
        n <= pats.len(),
        forall|p: int| 0 <= p < n ==> pats[p] != t,
    ensures
        ids_equal(pats, t, n) == Seq::<usize>::empty(),
    decreases n,
{
    if n > 0 {
        lemma_ids_equal_none(pats, t, (n - 1) as nat);
    }
}

/// `ids_equal` of a string that is not a state is empty.
pub proof fn lemma_ids_equal_not_state(pats: Seq<Seq<u8>>, t: Seq<u8>)
    requires
        !in_trie(pats, t),
    ensures
        ids_equal(pats, t, pats.len()) == Seq::<usize>::empty(),
{
    assert forall|p: int| 0 <= p < pats.len() implies pats[p] != t by {
        lemma_pattern_is_state(pats, p);
    }
    lemma_ids_equal_none(pats, t, pats.len());
}

/// The patterns that are suffixes of `w` are those that are suffixes of its
/// suffix `g` when no longer suffix of `w` is a state.
pub proof fn lemma_suffix_ids_skip(pats: Seq<Seq<u8>>, w: Seq<u8>, g: Seq<u8>)
    requires
        g.len() <= w.len(),
        suffix(w, g.len() as int) == g,
        forall|len: int| g.len() < len <= w.len() ==> !#[trigger] in_trie(pats, suffix(w, len)),
    ensures
        suffix_ids(pats, w) == suffix_ids(pats, g),
    decreases w.len() - g.len(),
{
    if w.len() == g.len() {
        assert(suffix(w, g.len() as int) =~= w);
    } else {
        assert(suffix(w, w.len() as int) =~= w);
        assert(!in_trie(pats, suffix(w, w.len() as int)));
        lemma_ids_equal_not_state(pats, w);
        let t = w.drop_first();
        lemma_suffix_drop_first(w, g.len() as int);
        assert forall|len: int| g.len() < len <= t.len() implies !#[trigger] in_trie(
            pats,
            suffix(t, len),
        ) by {
            lemma_suffix_drop_first(w, len);
        }
        lemma_suffix_ids_skip(pats, t, g);
        assert(suffix_ids(pats, w) =~= suffix_ids(pats, t));
    }
}

/// The patterns listed for `w` are suffixes of `w`.
pub proof fn lemma_suffix_ids_sound(pats: Seq<Seq<u8>>, w: Seq<u8>)
    requires
        pats.len() <= usize::MAX,
    ensures
        forall|k: int|
            0 <= k < suffix_ids(pats, w).len() ==> {
                let p = #[trigger] suffix_ids(pats, w)[k];
                &&& p < pats.len()
                &&& pats[p as int].len() <= w.len()
                &&& suffix(w, pats[p as int].len() as int) == pats[p as int]
            },
    decreases w.len(),
{
    let own = ids_equal(pats, w, pats.len());
    lemma_ids_equal_sound(pats, w, pats.len());
    assert(suffix(w, w.len() as int) =~= w);
    if w.len() > 0 {
        let t = w.drop_first();
        lemma_suffix_ids_sound(pats, t);
        assert forall|k: int| 0 <= k < suffix_ids(pats, w).len() implies {
            let p = #[trigger] suffix_ids(pats, w)[k];
            &&& p < pats.len()
            &&& pats[p as int].len() <= w.len()
            &&& suffix(w, pats[p as int].len() as int) == pats[p as int]
        } by {
            if k >= own.len() {
                let p = suffix_ids(pats, t)[k - own.len()];
                assert(suffix_ids(pats, w)[k] == p);
                lemma_suffix_drop_first(w, pats[p as int].len() as int);
            } else {
                assert(suffix_ids(pats, w)[k] == own[k]);
            }
        }
    }
}

/// Every pattern below `n` equal to `t` is listed by `ids_equal`, in
/// increasing order.
pub proof fn lemma_ids_equal_complete(pats: Seq<Seq<u8>>, t: Seq<u8>, n: nat)
    requires
        n <= pats.len() <= usize::MAX,
    ensures
        forall|q: int| 0 <= q < n && pats[q] == t ==> ids_equal(pats, t, n).contains(q as usize),
        forall|i: int, j: int|
            0 <= i < j < ids_equal(pats, t, n).len() ==> ids_equal(pats, t, n)[i] < ids_equal(pats, t, n)[j],
    decreases n,
{
    if n > 0 {
        let rest = ids_equal(pats, t, (n - 1) as nat);
        lemma_ids_equal_complete(pats, t, (n - 1) as nat);
        lemma_ids_equal_sound(pats, t, (n - 1) as nat);
        let all = ids_equal(pats, t, n);
        assert forall|q: int| 0 <= q < n && pats[q] == t implies all.contains(q as usize) by {
            if q < n - 1 {
                assert(rest.contains(q as usize));
                let i = choose|i: int| 0 <= i < rest.len() && rest[i] == q as usize;
                assert(all[i] == rest[i]);
            } else {
                assert(all[rest.len() as int] == q as usize);
            }
        }
        assert forall|i: int, j: int| 0 <= i < j < all.len() implies all[i] < all[j] by {
            assert(all[i] == rest[i]);
            if j < rest.len() {
                assert(all[j] == rest[j]);
            } else {
                assert(rest[i] < n - 1);
            }
        }
    }
}

/// Every pattern that is a suffix of `w` is listed for `w`, and none twice.
pub proof fn lemma_suffix_ids_complete(pats: Seq<Seq<u8>>, w: Seq<u8>)
    requires
        pats.len() <= usize::MAX,
    ensures
        forall|q: int|
            0 <= q < pats.len() && pats[q].len() <= w.len() && suffix(w, pats[q].len() as int) == pats[q]
                ==> suffix_ids(pats, w).contains(q as usize),
        suffix_ids(pats, w).no_duplicates(),
    decreases w.len(),
{
    let own = ids_equal(pats, w, pats.len());
    let all = suffix_ids(pats, w);
    lemma_ids_equal_complete(pats, w, pats.len());
    lemma_ids_equal_sound(pats, w, pats.len());
    assert(own.no_duplicates()) by {
        assert forall|i: int, j: int| 0 <= i < own.len() && 0 <= j < own.len() && i != j implies own[i]
            != own[j] by {
            if i < j {
                assert(own[i] < own[j]);
            } else {
                assert(own[j] < own[i]);
            }
        }
    }
    if w.len() == 0 {
        assert forall|q: int|
            0 <= q < pats.len() && pats[q].len() <= w.len() && suffix(w, pats[q].len() as int) == pats[q]
                implies all.contains(q as usize) by {
            assert(pats[q] =~= w);
        }
    } else {
        let t = w.drop_first();
        let rest = suffix_ids(pats, t);
        lemma_suffix_ids_complete(pats, t);
        lemma_suffix_ids_sound(pats, t);
        assert(all == own + rest);
        assert forall|q: int|
            0 <= q < pats.len() && pats[q].len() <= w.len() && suffix(w, pats[q].len() as int) == pats[q]
                implies all.contains(q as usize) by {
            if pats[q].len() == w.len() {
                assert(suffix(w, w.len() as int) =~= w);
                let i = choose|i: int| 0 <= i < own.len() && own[i] == q as usize;
                assert(all[i] == own[i]);
            } else {
                lemma_suffix_drop_first(w, pats[q].len() as int);
                let i = choose|i: int| 0 <= i < rest.len() && rest[i] == q as usize;
                assert(all[own.len() + i] == rest[i]);
            }
        }
        assert forall|i: int, j: int| 0 <= i < all.len() && 0 <= j < all.len() && i != j implies all[i]
            != all[j] by {
            if i < own.len() && j < own.len() {
            } else if i >= own.len() && j >= own.len() {
                assert(all[i] == rest[i - own.len()]);
                assert(all[j] == rest[j - own.len()]);
            } else if i < own.len() {
                let r = rest[j - own.len()];
                assert(all[j] == r);
                assert(pats[r as int].len() <= t.len());
                assert(pats[own[i] as int] == w);
            } else {
                let r = rest[i - own.len()];
                assert(all[i] == r);
                assert(pats[r as int].len() <= t.len());
                assert(pats[own[j] as int] == w);
            }
        }
    }
}

} // verus!
