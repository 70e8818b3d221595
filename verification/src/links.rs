//! Failure links, the full transition table and the merged output lists:
//! phase two of building the automaton, a breadth-first walk of the trie.
use std::collections::VecDeque;
use vstd::prelude::*;
use vstd::set_lib::{lemma_int_range, lemma_len_subset, set_int_range};

use crate::lemmas::{
    lemma_lts_extend, lemma_lts_not_state, lemma_lts_self, lemma_lts_single, lemma_suffix_ids_skip,
};
use crate::spec::{ids_equal, longest_state_suffix, suffix_ids};
use crate::trie::{child_ok, children_of, parent_ok, trie_wf, Node, ALPHA};

verus! {

/// The failure links of a sequence of nodes.
pub(crate) open spec fn fails_of(nodes: Seq<Node>) -> Seq<usize> {
    nodes.map_values(|n: Node| n.fail)
}

/// The output lists of a sequence of nodes.
pub(crate) open spec fn outs_of(nodes: Seq<Node>) -> Seq<Seq<usize>> {
    nodes.map_values(|n: Node| n.output@)
}

/// The rows of a transition table.
pub(crate) open spec fn rows_of(goto: Seq<Vec<usize>>) -> Seq<Seq<usize>> {
    goto.map_values(|r: Vec<usize>| r@)
}

/// The failure link of node `x` leads to the node of the longest proper
/// suffix of `strs[x]` that is a state.
pub(crate) open spec fn fail_ok(pats: Seq<Seq<u8>>, fails: Seq<usize>, strs: Seq<Seq<u8>>, x: int) -> bool {
    let f = fails[x] as int;
    &&& 0 <= f < strs.len()
    &&& longest_state_suffix(pats, strs[x].drop_first(), strs[f])
}

/// Transition `b` of node `x` leads to the node of the longest suffix of
/// `strs[x]` extended by `b` that is a state.
pub(crate) open spec fn goto_ok(
    pats: Seq<Seq<u8>>,
    rows: Seq<Seq<usize>>,
    strs: Seq<Seq<u8>>,
    x: int,
    b: int,
) -> bool {
    let g = rows[x][b] as int;
    &&& 0 <= g < strs.len()
    &&& longest_state_suffix(pats, strs[x].push(b as u8), strs[g])
}

/// The whole row of node `x` is correct.
pub(crate) open spec fn row_ok(pats: Seq<Seq<u8>>, rows: Seq<Seq<usize>>, strs: Seq<Seq<u8>>, x: int) -> bool {
    &&& rows[x].len() == 256
    &&& forall|b: int| 0 <= b < 256 ==> #[trigger] goto_ok(pats, rows, strs, x, b)
}

/// Node `x` has been handled by the walk: the root, or one of the first `h`
/// nodes taken from the queue.
pub(crate) open spec fn processed(hist: Seq<usize>, h: int, x: int) -> bool {
    x == 0 || exists|i: int| 0 <= i < h && hist[i] as int == x
}

/// Handled nodes have their final row and output list; the others still hold
/// only the patterns equal to their own string.
pub(crate) open spec fn node_state_ok(
    pats: Seq<Seq<u8>>,
    strs: Seq<Seq<u8>>,
    outs: Seq<Seq<usize>>,
    rows: Seq<Seq<usize>>,
    hist: Seq<usize>,
    h: int,
    x: int,
) -> bool {
    if processed(hist, h, x) {
        row_ok(pats, rows, strs, x) && outs[x] == suffix_ids(pats, strs[x])
    } else {
        outs[x] == ids_equal(pats, strs[x], pats.len())
    }
}

/// The nodes ever queued: non-root nodes, each once, by nondecreasing depth.
pub(crate) open spec fn hist_ok(strs: Seq<Seq<u8>>, hist: Seq<usize>) -> bool {
    &&& forall|i: int| 0 <= i < hist.len() ==> 0 < #[trigger] hist[i] < strs.len()
    &&& hist.no_duplicates()
    &&& forall|i: int, j: int|
        0 <= i <= j < hist.len() ==> strs[#[trigger] hist[i] as int].len() <= strs[#[trigger] hist[j] as int].len()
}

/// The state of the walk after `h` nodes were taken from the queue, whose
/// pushes so far are `hist`.
pub(crate) open spec fn bfs_inv(
    pats: Seq<Seq<u8>>,
    ch: Seq<Seq<usize>>,
    strs: Seq<Seq<u8>>,
    par: Seq<usize>,
    fails: Seq<usize>,
    outs: Seq<Seq<usize>>,
    rows: Seq<Seq<usize>>,
    hist: Seq<usize>,
    h: int,
) -> bool {
    &&& trie_wf(pats, ch, strs, par)
    &&& fails.len() == ch.len()
    &&& outs.len() == ch.len()
    &&& rows.len() == ch.len()
    &&& forall|x: int| 0 <= x < ch.len() ==> (#[trigger] rows[x]).len() == 256
    &&& 0 <= h <= hist.len()
    &&& hist_ok(strs, hist)
    &&& h < hist.len() ==> forall|i: int|
        0 <= i < hist.len() ==> strs[#[trigger] hist[i] as int].len() <= strs[hist[h] as int].len() + 1
    &&& forall|x: usize|
        0 < x < ch.len() ==> (#[trigger] hist.contains(x) <==> processed(hist, h, par[x as int] as int))
    &&& forall|i: int| 0 <= i < hist.len() ==> #[trigger] fail_ok(pats, fails, strs, hist[i] as int)
    &&& forall|x: int| 0 <= x < ch.len() ==> #[trigger] node_state_ok(pats, strs, outs, rows, hist, h, x)
}

/// The state of the walk while the transitions `0..b` of node `u = hist0[h]`
/// have been handled; `hist` is `hist0` with the children pushed so far.
pub(crate) open spec fn step_inv(
    pats: Seq<Seq<u8>>,
    ch: Seq<Seq<usize>>,
    strs: Seq<Seq<u8>>,
    par: Seq<usize>,
    fails: Seq<usize>,
    outs: Seq<Seq<usize>>,
    rows: Seq<Seq<usize>>,
    hist0: Seq<usize>,
    hist: Seq<usize>,
    h: int,
    u: int,
    b: int,
) -> bool {
    &&& trie_wf(pats, ch, strs, par)
    &&& fails.len() == ch.len()
    &&& outs.len() == ch.len()
    &&& rows.len() == ch.len()
    &&& forall|x: int| 0 <= x < ch.len() ==> (#[trigger] rows[x]).len() == 256
    &&& 0 <= h < hist0.len()
    &&& hist0[h] as int == u
    &&& hist.len() >= hist0.len()
    &&& hist.subrange(0, hist0.len() as int) == hist0
    &&& hist_ok(strs, hist)
    &&& forall|i: int| 0 <= i < hist.len() ==> strs[#[trigger] hist[i] as int].len() <= strs[u].len() + 1
    &&& forall|x: usize|
        0 < x < ch.len() ==> (#[trigger] hist.contains(x) <==> (processed(hist0, h, par[x as int] as int) || (
        par[x as int] as int == u && strs[x as int].last() < b)))
    &&& forall|i: int| 0 <= i < hist.len() ==> #[trigger] fail_ok(pats, fails, strs, hist[i] as int)
    &&& processed(hist0, h, fails[u] as int)
    &&& 0 <= b <= 256
    &&& forall|c: int| 0 <= c < b ==> #[trigger] goto_ok(pats, rows, strs, u, c)
    &&& outs[u] == suffix_ids(pats, strs[u])
    &&& forall|x: int|
        0 <= x < ch.len() && x != u ==> #[trigger] node_state_ok(pats, strs, outs, rows, hist0, h, x)
}

/// Every node shallower than the front of the queue has been handled.
proof fn lemma_shallow_processed(
    pats: Seq<Seq<u8>>,
    ch: Seq<Seq<usize>>,
    strs: Seq<Seq<u8>>,
    par: Seq<usize>,
    fails: Seq<usize>,
    outs: Seq<Seq<usize>>,
    rows: Seq<Seq<usize>>,
    hist: Seq<usize>,
    h: int,
    x: int,
)
    requires
        bfs_inv(pats, ch, strs, par, fails, outs, rows, hist, h),
        h < hist.len(),
        0 <= x < ch.len(),
        strs[x].len() < strs[hist[h] as int].len(),
    ensures
        processed(hist, h, x),
    decreases strs[x].len(),
{
    if x != 0 {
        assert(parent_ok(ch, strs, par, x));
        let q = par[x] as int;
        lemma_shallow_processed(pats, ch, strs, par, fails, outs, rows, hist, h, q);
        assert(hist.contains(x as usize));
        let i = choose|i: int| 0 <= i < hist.len() && hist[i] == x as usize;
        if i >= h {
            assert(strs[hist[h] as int].len() <= strs[hist[i] as int].len());
        }
    }
}

/// When the queue is empty, every node has been handled.
proof fn lemma_all_processed(
    pats: Seq<Seq<u8>>,
    ch: Seq<Seq<usize>>,
    strs: Seq<Seq<u8>>,
    par: Seq<usize>,
    fails: Seq<usize>,
    outs: Seq<Seq<usize>>,
    rows: Seq<Seq<usize>>,
    hist: Seq<usize>,
    h: int,
    x: int,
)
    requires
        bfs_inv(pats, ch, strs, par, fails, outs, rows, hist, h),
        h == hist.len(),
        0 <= x < ch.len(),
    ensures
        processed(hist, h, x),
    decreases strs[x].len(),
{
    if x != 0 {
        assert(parent_ok(ch, strs, par, x));
        let q = par[x] as int;
        lemma_all_processed(pats, ch, strs, par, fails, outs, rows, hist, h, q);
        assert(hist.contains(x as usize));
    }
}

/// A sequence of distinct node ids below `n`, none of them the root, is
/// shorter than `n`.
proof fn lemma_hist_len(hist: Seq<usize>, n: int)
    requires
        n >= 1,
        hist.no_duplicates(),
        forall|i: int| 0 <= i < hist.len() ==> 0 < #[trigger] hist[i] < n,
    ensures
        hist.len() < n,
{
    let t = hist.map_values(|x: usize| x as int);
    assert(t.no_duplicates()) by {
        assert forall|i: int, j: int| 0 <= i < t.len() && 0 <= j < t.len() && i != j implies t[i]
            != t[j] by {
            assert(hist[i] != hist[j]);
        }
    }
    t.unique_seq_to_set();
    assert(t.to_set().subset_of(set_int_range(1, n))) by {
        assert forall|v: int| t.to_set().contains(v) implies set_int_range(1, n).contains(v) by {
            let i = choose|i: int| 0 <= i < t.len() && t[i] == v;
            assert(0 < hist[i] < n);
        }
    }
    lemma_int_range(1, n);
    lemma_len_subset(t.to_set(), set_int_range(1, n));
}

/// Handling node `hist[h]` adds exactly that node to the handled ones.
proof fn lemma_processed_next(hist0: Seq<usize>, hist: Seq<usize>, h: int, y: int)
    requires
        0 <= h < hist0.len() <= hist.len(),
        hist.subrange(0, hist0.len() as int) == hist0,
    ensures
        processed(hist, h + 1, y) == (processed(hist0, h, y) || y == hist0[h] as int),
{
    assert(hist[h] == hist0[h]);
    if processed(hist, h + 1, y) && y != 0 {
        let i = choose|i: int| 0 <= i < h + 1 && hist[i] as int == y;
        if i < h {
            assert(hist0[i] == hist[i]);
        }
    }
    if processed(hist0, h, y) && y != 0 {
        let i = choose|i: int| 0 <= i < h && hist0[i] as int == y;
        assert(hist[i] == hist0[i]);
    }
}

/// The state of the walk before any transition of the root is handled.
pub(crate) open spec fn root_inv(
    pats: Seq<Seq<u8>>,
    ch: Seq<Seq<usize>>,
    strs: Seq<Seq<u8>>,
    par: Seq<usize>,
    fails: Seq<usize>,
    outs: Seq<Seq<usize>>,
    rows: Seq<Seq<usize>>,
    hist: Seq<usize>,
    b: int,
) -> bool {
    &&& trie_wf(pats, ch, strs, par)
    &&& fails.len() == ch.len()
    &&& outs.len() == ch.len()
    &&& rows.len() == ch.len()
    &&& forall|x: int| 0 <= x < ch.len() ==> (#[trigger] rows[x]).len() == 256
    &&& hist_ok(strs, hist)
    &&& forall|i: int| 0 <= i < hist.len() ==> strs[#[trigger] hist[i] as int].len() == 1
    &&& forall|x: usize|
        0 < x < ch.len() ==> (#[trigger] hist.contains(x) <==> (par[x as int] == 0 && strs[x as int].last()
        < b))
    &&& forall|i: int| 0 <= i < hist.len() ==> #[trigger] fail_ok(pats, fails, strs, hist[i] as int)
    &&& 0 <= b <= 256
    &&& forall|c: int| 0 <= c < b ==> #[trigger] goto_ok(pats, rows, strs, 0, c)
    &&& forall|x: int| 0 <= x < ch.len() ==> #[trigger] outs[x] == ids_equal(pats, strs[x], pats.len())
}

/// The child of `u` for byte `b` is the node whose parent is `u` and whose
/// string ends in `b`.
proof fn lemma_child_parent(
    pats: Seq<Seq<u8>>,
    ch: Seq<Seq<usize>>,
    strs: Seq<Seq<u8>>,
    par: Seq<usize>,
    u: int,
    b: int,
    x: int,
)
    requires
        trie_wf(pats, ch, strs, par),
        0 <= u < ch.len(),
        0 <= b < 256,
        0 < x < ch.len(),
    ensures
        (par[x] as int == u && strs[x].last() == b as u8) <==> ch[u][b] as int == x,
{
    assert(parent_ok(ch, strs, par, x));
    assert(child_ok(pats, ch, strs, u, b));
    if ch[u][b] as int == x {
        let t = strs[u].push(b as u8);
        assert(strs[x] == t);
        assert(t.drop_last() =~= strs[u]);
        let p = par[x] as int;
        assert(strs[p] == strs[u]);
        if p != u {
            assert(strs[p] != strs[u]);
        }
    }
}

/// Handling transition `b` of the root when it has a child.
proof fn lemma_root_child(
    pats: Seq<Seq<u8>>,
    ch: Seq<Seq<usize>>,
    strs: Seq<Seq<u8>>,
    par: Seq<usize>,
    fails: Seq<usize>,
    outs: Seq<Seq<usize>>,
    rows: Seq<Seq<usize>>,
    hist: Seq<usize>,
    b: int,
)
    requires
        root_inv(pats, ch, strs, par, fails, outs, rows, hist, b),
        b < 256,
        ch[0][b] != usize::MAX,
    ensures
        root_inv(
            pats,
            ch,
            strs,
            par,
            fails.update(ch[0][b] as int, 0),
            outs,
            rows.update(0, rows[0].update(b, ch[0][b])),
            hist.push(ch[0][b]),
            b + 1,
        ),
{
    let c = ch[0][b];
    let fails2 = fails.update(c as int, 0);
    let rows2 = rows.update(0, rows[0].update(b, c));
    let hist2 = hist.push(c);
    assert(child_ok(pats, ch, strs, 0, b));
    let s = strs[c as int];
    assert(s =~= seq![b as u8]);
    assert(s.drop_first() =~= Seq::<u8>::empty());
    assert(c != 0) by {
        assert(strs[0].len() == 0);
    }
    assert(!hist.contains(c)) by {
        lemma_child_parent(pats, ch, strs, par, 0, b, c as int);
    }
    lemma_lts_self(pats, Seq::<u8>::empty());
    lemma_lts_self(pats, s);
    assert(strs[0].push(b as u8) =~= s);
    assert(hist2.no_duplicates()) by {
        assert forall|i: int, j: int| 0 <= i < hist2.len() && 0 <= j < hist2.len() && i != j implies hist2[i]
            != hist2[j] by {
            if i < hist.len() && j < hist.len() {
                assert(hist2[i] == hist[i] && hist2[j] == hist[j]);
            } else if i == hist.len() {
                assert(hist2[j] == hist[j]);
            } else {
                assert(hist2[i] == hist[i]);
            }
        }
    }
    assert forall|i: int| 0 <= i < hist2.len() implies #[trigger] fail_ok(pats, fails2, strs, hist2[i] as int) by {
        if i < hist.len() {
            assert(hist2[i] == hist[i]);
            assert(fail_ok(pats, fails, strs, hist[i] as int));
            assert(hist[i] != c) by {
                assert(hist.contains(hist[i]));
            }
        }
    }
    assert forall|x: usize| 0 < x < ch.len() implies (#[trigger] hist2.contains(x) <==> (par[x as int] == 0
        && strs[x as int].last() < b + 1)) by {
        lemma_child_parent(pats, ch, strs, par, 0, b, x as int);
        assert(parent_ok(ch, strs, par, x as int));
        if hist2.contains(x) && x != c {
            let i = choose|i: int| 0 <= i < hist2.len() && hist2[i] == x;
            assert(hist[i] == x);
            assert(hist.contains(x));
        }
        if hist.contains(x) {
            let i = choose|i: int| 0 <= i < hist.len() && hist[i] == x;
            assert(hist2[i] == x);
        }
        if x == c {
            assert(hist2[hist.len() as int] == c);
        }
    }
    assert forall|x: int| 0 <= x < ch.len() implies (#[trigger] rows2[x]).len() == 256 by {
        if x != 0 {
            assert(rows2[x] == rows[x]);
        }
    }
    assert forall|cc: int| 0 <= cc < b + 1 implies #[trigger] goto_ok(pats, rows2, strs, 0, cc) by {
        if cc < b {
            assert(goto_ok(pats, rows, strs, 0, cc));
            assert(rows2[0][cc] == rows[0][cc]);
        }
    }
    assert forall|i: int, j: int| 0 <= i <= j < hist2.len() implies strs[#[trigger] hist2[i] as int].len()
        <= strs[#[trigger] hist2[j] as int].len() by {
        if j < hist.len() {
            assert(hist2[i] == hist[i] && hist2[j] == hist[j]);
        } else if i < hist.len() {
            assert(hist2[i] == hist[i]);
        }
    }
    assert forall|i: int| 0 <= i < hist2.len() implies strs[#[trigger] hist2[i] as int].len() == 1 by {
        if i < hist.len() {
            assert(hist2[i] == hist[i]);
        }
    }
    assert forall|i: int| 0 <= i < hist2.len() implies 0 < #[trigger] hist2[i] < strs.len() by {
        if i < hist.len() {
            assert(hist2[i] == hist[i]);
        }
    }
}

/// Handling transition `b` of the root when it has no child.
proof fn lemma_root_no_child(
    pats: Seq<Seq<u8>>,
    ch: Seq<Seq<usize>>,
    strs: Seq<Seq<u8>>,
    par: Seq<usize>,
    fails: Seq<usize>,
    outs: Seq<Seq<usize>>,
    rows: Seq<Seq<usize>>,
    hist: Seq<usize>,
    b: int,
)
    requires
        root_inv(pats, ch, strs, par, fails, outs, rows, hist, b),
        b < 256,
        ch[0][b] == usize::MAX,
    ensures
        root_inv(pats, ch, strs, par, fails, outs, rows.update(0, rows[0].update(b, 0usize)), hist, b + 1),
{
    let rows2 = rows.update(0, rows[0].update(b, 0usize));
    assert(child_ok(pats, ch, strs, 0, b));
    assert(strs[0].push(b as u8) =~= seq![b as u8]);
    lemma_lts_single(pats, b as u8);
    assert(Seq::<u8>::empty().push(b as u8) =~= seq![b as u8]);
    assert forall|x: usize| 0 < x < ch.len() implies (#[trigger] hist.contains(x) <==> (par[x as int] == 0
        && strs[x as int].last() < b + 1)) by {
        lemma_child_parent(pats, ch, strs, par, 0, b, x as int);
    }
    assert forall|x: int| 0 <= x < ch.len() implies (#[trigger] rows2[x]).len() == 256 by {
        if x != 0 {
            assert(rows2[x] == rows[x]);
        }
    }
    assert forall|cc: int| 0 <= cc < b + 1 implies #[trigger] goto_ok(pats, rows2, strs, 0, cc) by {
        if cc < b {
            assert(goto_ok(pats, rows, strs, 0, cc));
            assert(rows2[0][cc] == rows[0][cc]);
        }
    }
}

/// After the root's transitions, the walk's invariant holds with nothing
/// taken from the queue.
proof fn lemma_root_end(
    pats: Seq<Seq<u8>>,
    ch: Seq<Seq<usize>>,
    strs: Seq<Seq<u8>>,
    par: Seq<usize>,
    fails: Seq<usize>,
    outs: Seq<Seq<usize>>,
    rows: Seq<Seq<usize>>,
    hist: Seq<usize>,
)
    requires
        root_inv(pats, ch, strs, par, fails, outs, rows, hist, 256),
    ensures
        bfs_inv(pats, ch, strs, par, fails, outs, rows, hist, 0),
{
    assert forall|x: usize| 0 < x < ch.len() implies (#[trigger] hist.contains(x) <==> processed(
        hist,
        0,
        par[x as int] as int,
    )) by {
        assert(strs[x as int].last() < 256);
    }
    assert forall|x: int| 0 <= x < ch.len() implies #[trigger] node_state_ok(
        pats,
        strs,
        outs,
        rows,
        hist,
        0,
        x,
    ) by {
        assert(outs[x] == ids_equal(pats, strs[x], pats.len()));
        if x == 0 {
            assert(strs[0].len() == 0);
        }
    }
    if 0 < hist.len() {
        assert(strs[hist[0] as int].len() == 1);
    }
}

/// The node at the front of the queue has not been handled yet.
proof fn lemma_front_unprocessed(strs: Seq<Seq<u8>>, hist0: Seq<usize>, hist: Seq<usize>, h: int)
    requires
        hist_ok(strs, hist),
        0 <= h < hist0.len() <= hist.len(),
        hist.subrange(0, hist0.len() as int) == hist0,
    ensures
        !processed(hist0, h, hist0[h] as int),
{
    assert(hist[h] == hist0[h]);
    assert(0 < hist[h]);
    if processed(hist0, h, hist0[h] as int) {
        let i = choose|i: int| 0 <= i < h && hist0[i] as int == hist0[h] as int;
        assert(hist[i] == hist0[i]);
    }
}

/// Taking node `u` from the queue and merging the output of its failure
/// target starts the handling of its transitions.
proof fn lemma_step_begin(
    pats: Seq<Seq<u8>>,
    ch: Seq<Seq<usize>>,
    strs: Seq<Seq<u8>>,
    par: Seq<usize>,
    fails: Seq<usize>,
    outs: Seq<Seq<usize>>,
    rows: Seq<Seq<usize>>,
    hist: Seq<usize>,
    h: int,
)
    requires
        bfs_inv(pats, ch, strs, par, fails, outs, rows, hist, h),
        h < hist.len(),
    ensures
        ({
            let u = hist[h] as int;
            let f = fails[u] as int;
            &&& 0 <= f < ch.len()
            &&& f != u
            &&& step_inv(
                pats,
                ch,
                strs,
                par,
                fails,
                outs.update(u, outs[u] + outs[f]),
                rows,
                hist,
                hist,
                h,
                u,
                0,
            )
        }),
{
    let u = hist[h] as int;
    let f = fails[u] as int;
    let outs2 = outs.update(u, outs[u] + outs[f]);
    assert(fail_ok(pats, fails, strs, hist[h] as int));
    assert(strs[u].len() >= 1) by {
        assert(strs[u] != strs[0]);
        if strs[u].len() == 0 {
            assert(strs[u] =~= strs[0]);
        }
    }
    lemma_shallow_processed(pats, ch, strs, par, fails, outs, rows, hist, h, f);
    assert(hist.subrange(0, hist.len() as int) =~= hist);
    lemma_front_unprocessed(strs, hist, hist, h);
    assert(node_state_ok(pats, strs, outs, rows, hist, h, u));
    assert(node_state_ok(pats, strs, outs, rows, hist, h, f));
    lemma_suffix_ids_skip(pats, strs[u].drop_first(), strs[f]);
    assert(outs2[u] == suffix_ids(pats, strs[u]));
    assert forall|x: int| 0 <= x < ch.len() && x != u implies #[trigger] node_state_ok(
        pats,
        strs,
        outs2,
        rows,
        hist,
        h,
        x,
    ) by {
        assert(node_state_ok(pats, strs, outs, rows, hist, h, x));
    }
    assert forall|x: usize| 0 < x < ch.len() implies (#[trigger] hist.contains(x) <==> (processed(
        hist,
        h,
        par[x as int] as int,
    ) || (par[x as int] as int == u && strs[x as int].last() < 0))) by {}
}

/// Handling transition `b` of node `u` when it has a child.
proof fn lemma_step_child(
    pats: Seq<Seq<u8>>,
    ch: Seq<Seq<usize>>,
    strs: Seq<Seq<u8>>,
    par: Seq<usize>,
    fails: Seq<usize>,
    outs: Seq<Seq<usize>>,
    rows: Seq<Seq<usize>>,
    hist0: Seq<usize>,
    hist: Seq<usize>,
    h: int,
    u: int,
    b: int,
)
    requires
        step_inv(pats, ch, strs, par, fails, outs, rows, hist0, hist, h, u, b),
        b < 256,
        ch[u][b] != usize::MAX,
    ensures
        ({
            let c = ch[u][b];
            let g = rows[fails[u] as int][b];
            &&& 0 <= fails[u] < ch.len()
            &&& fails[u] as int != u
            &&& c as int != u
            &&& step_inv(
                pats,
                ch,
                strs,
                par,
                fails.update(c as int, g),
                outs,
                rows.update(u, rows[u].update(b, c)),
                hist0,
                hist.push(c),
                h,
                u,
                b + 1,
            )
        }),
{
    let c = ch[u][b];
    let f = fails[u] as int;
    let g = rows[f][b];
    let fails2 = fails.update(c as int, g);
    let rows2 = rows.update(u, rows[u].update(b, c));
    let hist2 = hist.push(c);
    assert(hist[h] == hist0[h]);
    assert(fail_ok(pats, fails, strs, hist[h] as int));
    lemma_front_unprocessed(strs, hist0, hist, h);
    assert(f != u);
    assert(node_state_ok(pats, strs, outs, rows, hist0, h, f));
    assert(goto_ok(pats, rows, strs, f, b));
    assert(child_ok(pats, ch, strs, u, b));
    assert(strs[u].len() >= 1) by {
        assert(strs[u] != strs[0]);
        if strs[u].len() == 0 {
            assert(strs[u] =~= strs[0]);
        }
    }
    let s = strs[c as int];
    assert(s == strs[u].push(b as u8));
    assert(s.drop_first() =~= strs[u].drop_first().push(b as u8));
    lemma_lts_extend(pats, strs[u].drop_first(), strs[f], b as u8, strs[g as int]);
    lemma_lts_self(pats, s);
    assert(c != 0) by {
        assert(strs[0].len() == 0);
    }
    lemma_child_parent(pats, ch, strs, par, u, b, c as int);
    assert(!hist.contains(c));
    assert(c as int != u) by {
        assert(hist.contains(hist[h]));
    }
    assert(hist2.subrange(0, hist0.len() as int) =~= hist0) by {
        assert(hist.subrange(0, hist0.len() as int) == hist0);
        assert forall|i: int| 0 <= i < hist0.len() implies hist2[i] == hist0[i] by {
            assert(hist2[i] == hist[i]);
            assert(hist.subrange(0, hist0.len() as int)[i] == hist0[i]);
        }
    }
    assert(hist2.no_duplicates()) by {
        assert forall|i: int, j: int| 0 <= i < hist2.len() && 0 <= j < hist2.len() && i != j implies hist2[i]
            != hist2[j] by {
            if i < hist.len() && j < hist.len() {
                assert(hist2[i] == hist[i] && hist2[j] == hist[j]);
            } else if i == hist.len() {
                assert(hist2[j] == hist[j]);
                assert(hist.contains(hist[j]));
            } else {
                assert(hist2[i] == hist[i]);
                assert(hist.contains(hist[i]));
            }
        }
    }
    assert forall|i: int| 0 <= i < hist2.len() implies 0 < #[trigger] hist2[i] < strs.len() by {
        if i < hist.len() {
            assert(hist2[i] == hist[i]);
        }
    }
    assert forall|i: int, j: int| 0 <= i <= j < hist2.len() implies strs[#[trigger] hist2[i] as int].len()
        <= strs[#[trigger] hist2[j] as int].len() by {
        if j < hist.len() {
            assert(hist2[i] == hist[i] && hist2[j] == hist[j]);
        } else if i < hist.len() {
            assert(hist2[i] == hist[i]);
            assert(strs[hist[i] as int].len() <= strs[u].len() + 1);
        }
    }
    assert forall|i: int| 0 <= i < hist2.len() implies strs[#[trigger] hist2[i] as int].len() <= strs[u].len()
        + 1 by {
        if i < hist.len() {
            assert(hist2[i] == hist[i]);
        }
    }
    assert forall|x: usize| 0 < x < ch.len() implies (#[trigger] hist2.contains(x) <==> (processed(
        hist0,
        h,
        par[x as int] as int,
    ) || (par[x as int] as int == u && strs[x as int].last() < b + 1))) by {
        lemma_child_parent(pats, ch, strs, par, u, b, x as int);
        if hist2.contains(x) && x != c {
            let i = choose|i: int| 0 <= i < hist2.len() && hist2[i] == x;
            assert(hist[i] == x);
            assert(hist.contains(x));
        }
        if hist.contains(x) {
            let i = choose|i: int| 0 <= i < hist.len() && hist[i] == x;
            assert(hist2[i] == x);
        }
        if x == c {
            assert(hist2[hist.len() as int] == c);
        }
    }
    assert forall|i: int| 0 <= i < hist2.len() implies #[trigger] fail_ok(pats, fails2, strs, hist2[i] as int) by {
        if i < hist.len() {
            assert(hist2[i] == hist[i]);
            assert(fail_ok(pats, fails, strs, hist[i] as int));
            assert(hist[i] != c) by {
                assert(hist.contains(hist[i]));
            }
        }
    }
    assert forall|x: int| 0 <= x < ch.len() implies (#[trigger] rows2[x]).len() == 256 by {
        if x != u {
            assert(rows2[x] == rows[x]);
        }
    }
    assert forall|cc: int| 0 <= cc < b + 1 implies #[trigger] goto_ok(pats, rows2, strs, u, cc) by {
        if cc < b {
            assert(goto_ok(pats, rows, strs, u, cc));
            assert(rows2[u][cc] == rows[u][cc]);
        }
    }
    assert forall|x: int| 0 <= x < ch.len() && x != u implies #[trigger] node_state_ok(
        pats,
        strs,
        outs,
        rows2,
        hist0,
        h,
        x,
    ) by {
        assert(node_state_ok(pats, strs, outs, rows, hist0, h, x));
        assert(rows2[x] == rows[x]);
        if processed(hist0, h, x) {
            assert forall|cc: int| 0 <= cc < 256 implies #[trigger] goto_ok(pats, rows2, strs, x, cc) by {
                assert(goto_ok(pats, rows, strs, x, cc));
            }
        }
    }
    assert(fails2[u] == fails[u]);
}

/// Handling transition `b` of node `u` when it has no child.
proof fn lemma_step_no_child(
    pats: Seq<Seq<u8>>,
    ch: Seq<Seq<usize>>,
    strs: Seq<Seq<u8>>,
    par: Seq<usize>,
    fails: Seq<usize>,
    outs: Seq<Seq<usize>>,
    rows: Seq<Seq<usize>>,
    hist0: Seq<usize>,
    hist: Seq<usize>,
    h: int,
    u: int,
    b: int,
)
    requires
        step_inv(pats, ch, strs, par, fails, outs, rows, hist0, hist, h, u, b),
        b < 256,
        ch[u][b] == usize::MAX,
    ensures
        ({
            let g = rows[fails[u] as int][b];
            &&& 0 <= fails[u] < ch.len()
            &&& fails[u] as int != u
            &&& step_inv(
                pats,
                ch,
                strs,
                par,
                fails,
                outs,
                rows.update(u, rows[u].update(b, g)),
                hist0,
                hist,
                h,
                u,
                b + 1,
            )
        }),
{
    let f = fails[u] as int;
    let g = rows[f][b];
    let rows2 = rows.update(u, rows[u].update(b, g));
    assert(hist[h] == hist0[h]);
    assert(fail_ok(pats, fails, strs, hist[h] as int));
    lemma_front_unprocessed(strs, hist0, hist, h);
    assert(f != u);
    assert(node_state_ok(pats, strs, outs, rows, hist0, h, f));
    assert(goto_ok(pats, rows, strs, f, b));
    assert(child_ok(pats, ch, strs, u, b));
    assert(strs[u].len() >= 1) by {
        assert(strs[u] != strs[0]);
        if strs[u].len() == 0 {
            assert(strs[u] =~= strs[0]);
        }
    }
    let w = strs[u].push(b as u8);
    assert(w.drop_first() =~= strs[u].drop_first().push(b as u8));
    lemma_lts_extend(pats, strs[u].drop_first(), strs[f], b as u8, strs[g as int]);
    lemma_lts_not_state(pats, w, strs[g as int]);
    assert forall|x: usize| 0 < x < ch.len() implies (#[trigger] hist.contains(x) <==> (processed(
        hist0,
        h,
        par[x as int] as int,
    ) || (par[x as int] as int == u && strs[x as int].last() < b + 1))) by {
        lemma_child_parent(pats, ch, strs, par, u, b, x as int);
    }
    assert forall|x: int| 0 <= x < ch.len() implies (#[trigger] rows2[x]).len() == 256 by {
        if x != u {
            assert(rows2[x] == rows[x]);
        }
    }
    assert forall|cc: int| 0 <= cc < b + 1 implies #[trigger] goto_ok(pats, rows2, strs, u, cc) by {
        if cc < b {
            assert(goto_ok(pats, rows, strs, u, cc));
            assert(rows2[u][cc] == rows[u][cc]);
        }
    }
    assert forall|x: int| 0 <= x < ch.len() && x != u implies #[trigger] node_state_ok(
        pats,
        strs,
        outs,
        rows2,
        hist0,
        h,
        x,
    ) by {
        assert(node_state_ok(pats, strs, outs, rows, hist0, h, x));
        assert(rows2[x] == rows[x]);
        if processed(hist0, h, x) {
            assert forall|cc: int| 0 <= cc < 256 implies #[trigger] goto_ok(pats, rows2, strs, x, cc) by {
                assert(goto_ok(pats, rows, strs, x, cc));
            }
        }
    }
}

/// After all transitions of node `u = hist0[h]`, the walk's invariant holds
/// with `h + 1` nodes taken from the queue.
proof fn lemma_step_end(
    pats: Seq<Seq<u8>>,
    ch: Seq<Seq<usize>>,
    strs: Seq<Seq<u8>>,
    par: Seq<usize>,
    fails: Seq<usize>,
    outs: Seq<Seq<usize>>,
    rows: Seq<Seq<usize>>,
    hist0: Seq<usize>,
    hist: Seq<usize>,
    h: int,
    u: int,
)
    requires
        step_inv(pats, ch, strs, par, fails, outs, rows, hist0, hist, h, u, 256),
    ensures
        bfs_inv(pats, ch, strs, par, fails, outs, rows, hist, h + 1),
{
    assert(hist[h] == hist0[h]);
    assert forall|y: int| processed(hist, h + 1, y) == (processed(hist0, h, y) || y == u) by {
        lemma_processed_next(hist0, hist, h, y);
    }
    assert forall|x: usize| 0 < x < ch.len() implies (#[trigger] hist.contains(x) <==> processed(
        hist,
        h + 1,
        par[x as int] as int,
    )) by {
        assert(strs[x as int].last() < 256);
    }
    assert forall|x: int| 0 <= x < ch.len() implies #[trigger] node_state_ok(
        pats,
        strs,
        outs,
        rows,
        hist,
        h + 1,
        x,
    ) by {
        if x != u {
            assert(node_state_ok(pats, strs, outs, rows, hist0, h, x));
        }
    }
    if h + 1 < hist.len() {
        assert(strs[hist[h] as int].len() <= strs[hist[h + 1] as int].len());
    }
}

/// Sets every failure link, fills the transition table and merges every
/// output list with that of its failure target, walking the trie breadth
/// first from the root.
pub(crate) fn build_links(
    nodes: &mut Vec<Node>,
    Ghost(pats): Ghost<Seq<Seq<u8>>>,
    Ghost(strs): Ghost<Seq<Seq<u8>>>,
    Ghost(par): Ghost<Seq<usize>>,
) -> (goto: Vec<Vec<usize>>)
    requires
        trie_wf(pats, children_of(old(nodes)@), strs, par),
        forall|x: int|
            0 <= x < old(nodes)@.len() ==> (#[trigger] old(nodes)@[x]).output@ == ids_equal(
                pats,
                strs[x],
                pats.len(),
            ),
    ensures
        final(nodes)@.len() == old(nodes)@.len(),
        children_of(final(nodes)@) == children_of(old(nodes)@),
        goto@.len() == old(nodes)@.len(),
        forall|x: int| 0 <= x < goto@.len() ==> #[trigger] row_ok(pats, rows_of(goto@), strs, x),
        forall|x: int| 0 < x < goto@.len() ==> #[trigger] fail_ok(pats, fails_of(final(nodes)@), strs, x),
        forall|x: int|
            0 <= x < goto@.len() ==> #[trigger] outs_of(final(nodes)@)[x] == suffix_ids(pats, strs[x]),
{
    let n = nodes.len();
    let ghost ch = children_of(nodes@);
    let mut goto: Vec<Vec<usize>> = Vec::new();
    for i in 0..n
        invariant
            goto@.len() == i,
            forall|x: int| 0 <= x < i ==> (#[trigger] goto@[x])@.len() == 256,
    {
        goto.push(vec![0usize; ALPHA]);
    }
    let mut queue: VecDeque<usize> = VecDeque::new();
    let ghost mut hist: Seq<usize> = Seq::empty();
    proof {
        assert forall|x: int| 0 <= x < n implies #[trigger] outs_of(nodes@)[x] == ids_equal(
            pats,
            strs[x],
            pats.len(),
        ) by {
            assert(nodes@[x].output@ == ids_equal(pats, strs[x], pats.len()));
        }
        assert(hist_ok(strs, hist));
        assert(root_inv(pats, ch, strs, par, fails_of(nodes@), outs_of(nodes@), rows_of(goto@), hist, 0));
    }
    for b in 0..ALPHA
        invariant
            n == nodes@.len(),
            goto@.len() == n,
            children_of(nodes@) == ch,
            ch.len() == n,
            root_inv(pats, ch, strs, par, fails_of(nodes@), outs_of(nodes@), rows_of(goto@), hist, b as int),
            queue@ == hist,
    {
        let ghost nodes0 = nodes@;
        let ghost goto0 = goto@;
        assert(ch[0] == nodes@[0].children@ && ch[0].len() == 256);
        let child = nodes[0].children[b];
        assert(child == ch[0][b as int]);
        if child == usize::MAX {
            proof {
                lemma_root_no_child(pats, ch, strs, par, fails_of(nodes@), outs_of(nodes@), rows_of(goto@), hist, b as int);
            }
            goto[0][b] = 0;
            proof {
                assert(rows_of(goto@) =~= rows_of(goto0).update(0, rows_of(goto0)[0].update(b as int, 0usize)));
            }
        } else {
            proof {
                lemma_root_child(pats, ch, strs, par, fails_of(nodes@), outs_of(nodes@), rows_of(goto@), hist, b as int);
                assert(child_ok(pats, ch, strs, 0, b as int));
            }
            goto[0][b] = child;
            nodes[child].fail = 0;
            queue.push_back(child);
            proof {
                hist = hist.push(child);
                assert(rows_of(goto@) =~= rows_of(goto0).update(0, rows_of(goto0)[0].update(b as int, child)));
                assert(fails_of(nodes@) =~= fails_of(nodes0).update(child as int, 0));
                assert(outs_of(nodes@) =~= outs_of(nodes0));
                assert(children_of(nodes@) =~= children_of(nodes0));
            }
        }
    }
    proof {
        lemma_root_end(pats, ch, strs, par, fails_of(nodes@), outs_of(nodes@), rows_of(goto@), hist);
        assert(hist.subrange(0, hist.len() as int) =~= hist);
    }
    let ghost mut h: int = 0;
    loop
        invariant
            n == nodes@.len(),
            goto@.len() == n,
            children_of(nodes@) == ch,
            ch.len() == n,
            bfs_inv(pats, ch, strs, par, fails_of(nodes@), outs_of(nodes@), rows_of(goto@), hist, h),
            queue@ == hist.subrange(h, hist.len() as int),
        ensures
            n == nodes@.len(),
            goto@.len() == n,
            children_of(nodes@) == ch,
            bfs_inv(pats, ch, strs, par, fails_of(nodes@), outs_of(nodes@), rows_of(goto@), hist, h),
            h == hist.len(),
        decreases n - h,
    {
        proof {
            lemma_hist_len(hist, n as int);
        }
        match queue.pop_front() {
            None => {
                break;
            },
            Some(u) => {
                let ghost hist0 = hist;
                proof {
                    assert(u == hist[h]);
                    lemma_step_begin(pats, ch, strs, par, fails_of(nodes@), outs_of(nodes@), rows_of(goto@), hist, h);
                }
                let ghost nodes0 = nodes@;
                let fail_u = nodes[u].fail;
                let mut extra = nodes[fail_u].output.clone();
                assert(extra@ =~= nodes@[fail_u as int].output@);
                nodes[u].output.append(&mut extra);
                proof {
                    let outs0 = outs_of(nodes0);
                    assert(outs_of(nodes@) =~= outs0.update(u as int, outs0[u as int] + outs0[fail_u as int]));
                    assert(fails_of(nodes@) =~= fails_of(nodes0));
                    assert(children_of(nodes@) =~= children_of(nodes0));
                }
                for b in 0..ALPHA
                    invariant
                        n == nodes@.len(),
                        goto@.len() == n,
                        children_of(nodes@) == ch,
                        ch.len() == n,
                        u < n,
                        fail_u == fails_of(nodes@)[u as int],
                        step_inv(
                            pats,
                            ch,
                            strs,
                            par,
                            fails_of(nodes@),
                            outs_of(nodes@),
                            rows_of(goto@),
                            hist0,
                            hist,
                            h,
                            u as int,
                            b as int,
                        ),
                        queue@ == hist.subrange(h + 1, hist.len() as int),
                {
                    let ghost nodes1 = nodes@;
                    let ghost goto1 = goto@;
                    assert(ch[u as int] == nodes@[u as int].children@ && ch[u as int].len() == 256);
                    let child = nodes[u].children[b];
                    assert(child == ch[u as int][b as int]);
                    if child == usize::MAX {
                        proof {
                            lemma_step_no_child(
                                pats,
                                ch,
                                strs,
                                par,
                                fails_of(nodes@),
                                outs_of(nodes@),
                                rows_of(goto@),
                                hist0,
                                hist,
                                h,
                                u as int,
                                b as int,
                            );
                        }
                        let g = goto[nodes[u].fail][b];
                        goto[u][b] = g;
                        proof {
                            assert(rows_of(goto@) =~= rows_of(goto1).update(
                                u as int,
                                rows_of(goto1)[u as int].update(b as int, g),
                            ));
                        }
                    } else {
                        proof {
                            lemma_step_child(
                                pats,
                                ch,
                                strs,
                                par,
                                fails_of(nodes@),
                                outs_of(nodes@),
                                rows_of(goto@),
                                hist0,
                                hist,
                                h,
                                u as int,
                                b as int,
                            );
                            assert(child_ok(pats, ch, strs, u as int, b as int));
                        }
                        let g = goto[nodes[u].fail][b];
                        nodes[child].fail = g;
                        goto[u][b] = child;
                        queue.push_back(child);
                        proof {
                            let hist_before = hist;
                            hist = hist.push(child);
                            assert(rows_of(goto@) =~= rows_of(goto1).update(
                                u as int,
                                rows_of(goto1)[u as int].update(b as int, child),
                            ));
                            assert(fails_of(nodes@) =~= fails_of(nodes1).update(child as int, g));
                            assert(outs_of(nodes@) =~= outs_of(nodes1));
                            assert(children_of(nodes@) =~= children_of(nodes1));
                            assert(queue@ =~= hist.subrange(h + 1, hist.len() as int));
                        }
                    }
                }
                proof {
                    lemma_step_end(
                        pats,
                        ch,
                        strs,
                        par,
                        fails_of(nodes@),
                        outs_of(nodes@),
                        rows_of(goto@),
                        hist0,
                        hist,
                        h,
                        u as int,
                    );
                    h = h + 1;
                }
            },
        }
    }
    proof {
        assert forall|x: int| 0 <= x < goto@.len() implies #[trigger] row_ok(pats, rows_of(goto@), strs, x) by {
            lemma_all_processed(pats, ch, strs, par, fails_of(nodes@), outs_of(nodes@), rows_of(goto@), hist, h, x);
            assert(node_state_ok(pats, strs, outs_of(nodes@), rows_of(goto@), hist, h, x));
        }
        assert forall|x: int| 0 <= x < goto@.len() implies #[trigger] outs_of(nodes@)[x] == suffix_ids(
            pats,
            strs[x],
        ) by {
            lemma_all_processed(pats, ch, strs, par, fails_of(nodes@), outs_of(nodes@), rows_of(goto@), hist, h, x);
            assert(node_state_ok(pats, strs, outs_of(nodes@), rows_of(goto@), hist, h, x));
        }
        assert forall|x: int| 0 < x < goto@.len() implies #[trigger] fail_ok(pats, fails_of(nodes@), strs, x) by {
            assert(parent_ok(ch, strs, par, x));
            lemma_all_processed(pats, ch, strs, par, fails_of(nodes@), outs_of(nodes@), rows_of(goto@), hist, h, par[x] as int);
            assert(hist.contains(x as usize));
            let i = choose|i: int| 0 <= i < hist.len() && hist[i] == x as usize;
            assert(fail_ok(pats, fails_of(nodes@), strs, hist[i] as int));
        }
    }
    goto
}

} // verus!
