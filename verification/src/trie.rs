//! The trie of the patterns: phase one of building the automaton.
use vstd::prelude::*;

use crate::lemmas::{lemma_ids_equal_none, lemma_state_push};
use crate::spec::{ids_equal, in_trie, is_prefix, total_len};

verus! {

/// The number of byte values: the width of every transition row.
pub(crate) const ALPHA: usize = 256;

/// A trie node: its transitions, its failure link and the ids of the
/// patterns reported when the automaton is in this state.
pub(crate) struct Node {
    pub(crate) children: Vec<usize>,
    pub(crate) fail: usize,
    pub(crate) output: Vec<usize>,
}

impl Node {
    pub(crate) fn new() -> (n: Node)
        ensures
            n.children@.len() == 256,
            forall|b: int| 0 <= b < 256 ==> n.children@[b] == usize::MAX,
            n.fail == 0,
            n.output@ == Seq::<usize>::empty(),
    {
        Node { children: vec![usize::MAX; ALPHA], fail: 0, output: vec![] }
    }
}

/// The patterns held by a vector of byte vectors.
pub(crate) open spec fn pats_view(v: Seq<Vec<u8>>) -> Seq<Seq<u8>> {
    v.map_values(|p: Vec<u8>| p@)
}

/// The transition rows of a sequence of nodes.
pub(crate) open spec fn children_of(nodes: Seq<Node>) -> Seq<Seq<usize>> {
    nodes.map_values(|n: Node| n.children@)
}

/// Transition `b` of node `u` leads to the node of `strs[u]` extended by `b`,
/// and is absent exactly when that string is not a state.
pub(crate) open spec fn child_ok(
    pats: Seq<Seq<u8>>,
    ch: Seq<Seq<usize>>,
    strs: Seq<Seq<u8>>,
    u: int,
    b: int,
) -> bool {
    let c = ch[u][b];
    &&& (c == usize::MAX) == !in_trie(pats, strs[u].push(b as u8))
    &&& c != usize::MAX ==> c < ch.len() && strs[c as int] == strs[u].push(b as u8)
}

/// Node `x` hangs below node `par[x]`.
pub(crate) open spec fn parent_ok(ch: Seq<Seq<usize>>, strs: Seq<Seq<u8>>, par: Seq<usize>, x: int) -> bool {
    let p = par[x] as int;
    &&& 0 <= p < ch.len()
    &&& strs[x].len() >= 1
    &&& strs[p] == strs[x].drop_last()
    &&& ch[p][strs[x].last() as int] == x
}

/// The transition rows `ch`, with node strings `strs` and parents `par`, form
/// the trie of `pats`: one node per state, the root holding the empty string.
pub(crate) open spec fn trie_wf(
    pats: Seq<Seq<u8>>,
    ch: Seq<Seq<usize>>,
    strs: Seq<Seq<u8>>,
    par: Seq<usize>,
) -> bool {
    &&& ch.len() == strs.len() == par.len()
    &&& 1 <= ch.len() <= usize::MAX
    &&& strs[0] == Seq::<u8>::empty()
    &&& strs.no_duplicates()
    &&& forall|u: int| 0 <= u < ch.len() ==> in_trie(pats, #[trigger] strs[u])
    &&& forall|s: Seq<u8>| #[trigger] in_trie(pats, s) ==> strs.contains(s)
    &&& forall|u: int| 0 <= u < ch.len() ==> (#[trigger] ch[u]).len() == 256
    &&& forall|u: int, b: int|
        0 <= u < ch.len() && 0 <= b < 256 ==> #[trigger] child_ok(pats, ch, strs, u, b)
    &&& forall|x: int| 0 < x < ch.len() ==> #[trigger] parent_ok(ch, strs, par, x)
}

/// Two pattern sets with the same states have the same tries.
proof fn lemma_trie_wf_same_states(
    a: Seq<Seq<u8>>,
    b: Seq<Seq<u8>>,
    ch: Seq<Seq<usize>>,
    strs: Seq<Seq<u8>>,
    par: Seq<usize>,
)
    requires
        trie_wf(a, ch, strs, par),
        forall|s: Seq<u8>| #[trigger] in_trie(a, s) == #[trigger] in_trie(b, s),
    ensures
        trie_wf(b, ch, strs, par),
{
    assert forall|u: int, c: int| 0 <= u < ch.len() && 0 <= c < 256 implies #[trigger] child_ok(
        b,
        ch,
        strs,
        u,
        c,
    ) by {
        assert(child_ok(a, ch, strs, u, c));
        assert(in_trie(a, strs[u].push(c as u8)) == in_trie(b, strs[u].push(c as u8)));
    }
    assert forall|u: int| 0 <= u < ch.len() implies in_trie(b, #[trigger] strs[u]) by {
        assert(in_trie(a, strs[u]));
    }
    assert forall|s: Seq<u8>| #[trigger] in_trie(b, s) implies strs.contains(s) by {
        assert(in_trie(a, s));
    }
}

/// Adding a prefix of a new pattern adds exactly that prefix to the states.
proof fn lemma_states_grow(a: Seq<Seq<u8>>, x: Seq<u8>, b: u8)
    ensures
        forall|s: Seq<u8>|
            #[trigger] in_trie(a.push(x.push(b)), s) == (in_trie(a.push(x), s) || s == x.push(b)),
{
    let a1 = a.push(x);
    let a2 = a.push(x.push(b));
    let t = x.push(b);
    assert forall|s: Seq<u8>| #[trigger] in_trie(a2, s) == (in_trie(a1, s) || s == t) by {
        if s.len() > 0 {
            if in_trie(a2, s) {
                let p = choose|p: int| 0 <= p < a2.len() && #[trigger] is_prefix(s, a2[p]);
                if p < a.len() {
                    assert(a1[p] == a2[p]);
                } else if s != t {
                    assert(s.len() <= x.len()) by {
                        if s.len() == t.len() {
                            assert(s =~= t);
                        }
                    }
                    assert(x.subrange(0, s.len() as int) =~= t.subrange(0, s.len() as int));
                    assert(is_prefix(s, a1[a.len() as int]));
                }
            }
            if in_trie(a1, s) {
                let p = choose|p: int| 0 <= p < a1.len() && #[trigger] is_prefix(s, a1[p]);
                if p < a.len() {
                    assert(a1[p] == a2[p]);
                } else {
                    assert(x.subrange(0, s.len() as int) =~= t.subrange(0, s.len() as int));
                    assert(is_prefix(s, a2[a.len() as int]));
                }
            }
            if s == t {
                assert(t.subrange(0, t.len() as int) =~= t);
                assert(is_prefix(s, a2[a.len() as int]));
            }
        }
    }
}

/// Adding the empty prefix of a new pattern adds no state.
proof fn lemma_states_empty(a: Seq<Seq<u8>>)
    ensures
        forall|s: Seq<u8>| #[trigger] in_trie(a.push(Seq::<u8>::empty()), s) == #[trigger] in_trie(a, s),
{
    let a1 = a.push(Seq::<u8>::empty());
    assert forall|s: Seq<u8>| #[trigger] in_trie(a1, s) == #[trigger] in_trie(a, s) by {
        if s.len() > 0 {
            if in_trie(a1, s) {
                let p = choose|p: int| 0 <= p < a1.len() && #[trigger] is_prefix(s, a1[p]);
                assert(a1[p] == a[p]);
            }
            if in_trie(a, s) {
                let p = choose|p: int| 0 <= p < a.len() && #[trigger] is_prefix(s, a[p]);
                assert(a1[p] == a[p]);
            }
        }
    }
}

/// Adding a node for a new state `x.push(b)` below the node `cur` of `x`
/// keeps the trie well formed.
proof fn lemma_trie_add_node(
    a: Seq<Seq<u8>>,
    a2: Seq<Seq<u8>>,
    ch: Seq<Seq<usize>>,
    ch2: Seq<Seq<usize>>,
    strs: Seq<Seq<u8>>,
    par: Seq<usize>,
    cur: int,
    b: u8,
)
    requires
        trie_wf(a, ch, strs, par),
        0 <= cur < ch.len(),
        ch.len() < usize::MAX,
        ch[cur][b as int] == usize::MAX,
        forall|s: Seq<u8>|
            #[trigger] in_trie(a2, s) == (in_trie(a, s) || s == strs[cur].push(b)),
        ch2.len() == ch.len() + 1,
        forall|u: int| 0 <= u < ch.len() && u != cur ==> #[trigger] ch2[u] == ch[u],
        ch2[cur] == ch[cur].update(b as int, ch.len() as usize),
        ch2[ch.len() as int].len() == 256,
        forall|c: int| 0 <= c < 256 ==> #[trigger] ch2[ch.len() as int][c] == usize::MAX,
    ensures
        trie_wf(a2, ch2, strs.push(strs[cur].push(b)), par.push(cur as usize)),
{
    let n = ch.len() as int;
    let t = strs[cur].push(b);
    let strs2 = strs.push(t);
    let par2 = par.push(cur as usize);
    assert(!in_trie(a, t)) by {
        assert(child_ok(a, ch, strs, cur, b as int));
    }
    assert(!strs.contains(t)) by {
        if strs.contains(t) {
            let i = choose|i: int| 0 <= i < strs.len() && strs[i] == t;
            assert(in_trie(a, strs[i]));
        }
    }
    assert(strs2.no_duplicates()) by {
        assert forall|i: int, j: int| 0 <= i < strs2.len() && 0 <= j < strs2.len() && i != j implies strs2[i]
            != strs2[j] by {
            if i < n && j < n {
            } else if i == n {
                assert(strs2[j] == strs[j]);
            } else {
                assert(strs2[i] == strs[i]);
            }
        }
    }
    assert forall|u: int| 0 <= u < ch2.len() implies in_trie(a2, #[trigger] strs2[u]) by {
        if u < n {
            assert(in_trie(a, strs[u]));
        }
    }
    assert forall|s: Seq<u8>| #[trigger] in_trie(a2, s) implies strs2.contains(s) by {
        if s == t {
            assert(strs2[n] == t);
        } else {
            assert(in_trie(a, s));
            assert(strs.contains(s));
            let i = choose|i: int| 0 <= i < strs.len() && strs[i] == s;
            assert(strs2[i] == s);
        }
    }
    assert forall|u: int| 0 <= u < ch2.len() implies (#[trigger] ch2[u]).len() == 256 by {
        if u < n && u != cur {
            assert(ch2[u] == ch[u]);
        }
    }
    assert forall|u: int, c: int| 0 <= u < ch2.len() && 0 <= c < 256 implies #[trigger] child_ok(
        a2,
        ch2,
        strs2,
        u,
        c,
    ) by {
        let sc = strs2[u].push(c as u8);
        if u == n {
            assert(ch2[u][c] == usize::MAX);
            assert(sc != t) by {
                assert(sc.len() != t.len());
            }
            if in_trie(a, sc) {
                lemma_state_push(a, t, c as u8);
            }
        } else {
            assert(strs2[u] == strs[u]);
            assert(child_ok(a, ch, strs, u, c));
            if u == cur && c == b as int {
                assert(ch2[u][c] == n);
                assert(strs2[n] == t);
            } else {
                assert(ch2[u][c] == ch[u][c]);
                assert(sc != t) by {
                    if sc == t {
                        assert(sc.drop_last() =~= strs[u]);
                        assert(t.drop_last() =~= strs[cur]);
                        assert(strs[u] == strs[cur]);
                        assert(sc.last() == c as u8);
                    }
                }
                let cc = ch[u][c];
                if cc != usize::MAX {
                    assert(strs2[cc as int] == strs[cc as int]);
                }
            }
        }
    }
    assert forall|x: int| 0 < x < ch2.len() implies #[trigger] parent_ok(ch2, strs2, par2, x) by {
        if x == n {
            assert(t.drop_last() =~= strs[cur]);
            assert(strs2[cur] == strs[cur]);
        } else {
            assert(parent_ok(ch, strs, par, x));
            let p = par[x] as int;
            assert(par2[x] == par[x]);
            assert(strs2[x] == strs[x]);
            assert(strs2[p] == strs[p]);
            if p == cur && strs[x].last() == b {
                assert(ch[p][b as int] == x);
            }
        }
    }
}

/// A well-formed trie has at most as many nodes as its states.
pub(crate) proof fn lemma_node_strings(pats: Seq<Seq<u8>>, ch: Seq<Seq<usize>>, strs: Seq<Seq<u8>>, par: Seq<usize>)
    requires
        trie_wf(pats, ch, strs, par),
    ensures
        strs.to_set() == Set::new(|s: Seq<u8>| in_trie(pats, s)),
{
    assert forall|s: Seq<u8>| strs.to_set().contains(s) == in_trie(pats, s) by {
        if strs.contains(s) {
            let i = choose|i: int| 0 <= i < strs.len() && strs[i] == s;
            assert(in_trie(pats, strs[i]));
        }
        if in_trie(pats, s) {
            assert(strs.contains(s));
        }
    }
    assert(strs.to_set() =~= Set::new(|s: Seq<u8>| in_trie(pats, s)));
}

/// The total length of a prefix of the patterns is bounded by the total.
proof fn lemma_total_len_take(pats: Seq<Seq<u8>>, k: int)
    requires
        0 <= k <= pats.len(),
    ensures
        total_len(pats.take(k)) <= total_len(pats),
        k < pats.len() ==> total_len(pats.take(k + 1)) == total_len(pats.take(k)) + pats[k].len(),
    decreases pats.len(),
{
    if k < pats.len() {
        assert(pats.take(k + 1).drop_last() =~= pats.take(k));
        lemma_total_len_take(pats.drop_last(), k);
        assert(pats.drop_last().take(k) =~= pats.take(k));
        if k + 1 < pats.len() {
            lemma_total_len_take(pats.drop_last(), k + 1);
            assert(pats.drop_last().take(k + 1) =~= pats.take(k + 1));
        } else {
            assert(pats.take(k + 1) =~= pats);
        }
    } else {
        assert(pats.take(k) =~= pats);
    }
}

/// Builds the trie of `pats`: the node of each state, its transitions, and
/// as output the ids of the patterns equal to its string.
pub(crate) fn build_trie(pats: &Vec<Vec<u8>>) -> (res: (Vec<Node>, Ghost<Seq<Seq<u8>>>, Ghost<Seq<usize>>))
    requires
        total_len(pats_view(pats@)) < usize::MAX,
    ensures
        ({
            let (nodes, strs, par) = res;
            let p = pats_view(pats@);
            &&& trie_wf(p, children_of(nodes@), strs@, par@)
            &&& nodes@.len() <= total_len(p) + 1
            &&& forall|u: int|
                0 <= u < nodes@.len() ==> (#[trigger] nodes@[u]).output@ == ids_equal(
                    p,
                    strs@[u],
                    p.len(),
                ) && nodes@[u].fail == 0
        }),
{
    let ghost pv = pats_view(pats@);
    let mut nodes: Vec<Node> = Vec::new();
    nodes.push(Node::new());
    let ghost mut strs: Seq<Seq<u8>> = seq![Seq::<u8>::empty()];
    let ghost mut par: Seq<usize> = seq![0usize];
    proof {
        let a = pv.take(0);
        let ch = children_of(nodes@);
        assert forall|s: Seq<u8>| #[trigger] in_trie(a, s) implies strs.contains(s) by {
            assert(s =~= strs[0]);
        }
        assert forall|u: int, c: int| 0 <= u < ch.len() && 0 <= c < 256 implies #[trigger] child_ok(
            a,
            ch,
            strs,
            u,
            c,
        ) by {
            assert(ch[u][c] == usize::MAX);
        }
        assert(trie_wf(a, ch, strs, par));
    }
    for pid in 0..pats.len()
        invariant
            pv == pats_view(pats@),
            total_len(pv) < usize::MAX,
            trie_wf(pv.take(pid as int), children_of(nodes@), strs, par),
            nodes@.len() <= total_len(pv.take(pid as int)) + 1,
            forall|u: int|
                0 <= u < nodes@.len() ==> (#[trigger] nodes@[u]).output@ == ids_equal(
                    pv,
                    strs[u],
                    pid as nat,
                ) && nodes@[u].fail == 0,
    {
        let pat = &pats[pid];
        let ghost pw = pv[pid as int];
        let ghost done = pv.take(pid as int);
        assert(pat@ == pw);
        proof {
            lemma_total_len_take(pv, pid as int);
            lemma_total_len_take(pv, pid + 1);
            lemma_states_empty(done);
            assert(pw.take(0) =~= Seq::<u8>::empty());
            lemma_trie_wf_same_states(done, done.push(pw.take(0)), children_of(nodes@), strs, par);
        }
        let mut cur: usize = 0;
        for j in 0..pat.len()
            invariant
                pv == pats_view(pats@),
                pw == pv[pid as int],
                pat@ == pw,
                done == pv.take(pid as int),
                pid < pv.len(),
                total_len(done) + pw.len() <= total_len(pv) < usize::MAX,
                trie_wf(done.push(pw.take(j as int)), children_of(nodes@), strs, par),
                cur < nodes@.len(),
                strs[cur as int] == pw.take(j as int),
                nodes@.len() <= total_len(done) + j + 1,
                forall|u: int|
                    0 <= u < nodes@.len() ==> (#[trigger] nodes@[u]).output@ == ids_equal(
                        pv,
                        strs[u],
                        pid as nat,
                    ) && nodes@[u].fail == 0,
        {
            let b = pat[j];
            let ghost a = done.push(pw.take(j as int));
            let ghost a2 = done.push(pw.take(j + 1));
            let ghost t = strs[cur as int].push(b);
            proof {
                assert(pw.take(j as int).push(b) =~= pw.take(j + 1));
                lemma_states_grow(done, pw.take(j as int), b);
                assert(child_ok(a, children_of(nodes@), strs, cur as int, b as int));
            }
            if nodes[cur].children[b as usize] == usize::MAX {
                let ghost ch = children_of(nodes@);
                let ghost old_nodes = nodes@;
                let n = nodes.len();
                nodes[cur].children[b as usize] = n;
                nodes.push(Node::new());
                proof {
                    let ch2 = children_of(nodes@);
                    assert forall|u: int| 0 <= u < ch.len() && u != cur implies #[trigger] ch2[u]
                        == ch[u] by {
                        assert(nodes@[u] == old_nodes[u]);
                    }
                    assert(ch2[cur as int] =~= ch[cur as int].update(b as int, ch.len() as usize));
                    lemma_trie_add_node(a, a2, ch, ch2, strs, par, cur as int, b);
                    assert forall|p: int| 0 <= p < pid implies pv[p] != t by {
                        if pv[p] == t {
                            assert(a[p] == pv[p]);
                            assert(t.subrange(0, t.len() as int) =~= t);
                            assert(is_prefix(t, a[p]));
                        }
                    }
                    lemma_ids_equal_none(pv, t, pid as nat);
                    strs = strs.push(t);
                    par = par.push(cur);
                    assert forall|u: int| 0 <= u < nodes@.len() implies (#[trigger] nodes@[u]).output@
                        == ids_equal(pv, strs[u], pid as nat) && nodes@[u].fail == 0 by {
                        if u < n && u != cur {
                            assert(nodes@[u] == old_nodes[u]);
                        }
                    }
                }
            } else {
                proof {
                    lemma_trie_wf_same_states(a, a2, children_of(nodes@), strs, par);
                }
            }
            cur = nodes[cur].children[b as usize];
        }
        proof {
            assert(pw.take(pat.len() as int) =~= pw);
            assert(done.push(pw) =~= pv.take(pid + 1));
        }
        let ghost before = nodes@;
        nodes[cur].output.push(pid);
        proof {
            assert(children_of(nodes@) =~= children_of(before)) by {
                assert forall|u: int| 0 <= u < nodes@.len() implies #[trigger] children_of(nodes@)[u]
                    == children_of(before)[u] by {
                    if u != cur {
                        assert(nodes@[u] == before[u]);
                    }
                }
            }
            assert forall|u: int| 0 <= u < nodes@.len() implies (#[trigger] nodes@[u]).output@
                == ids_equal(pv, strs[u], (pid + 1) as nat) && nodes@[u].fail == 0 by {
                if u != cur {
                    assert(nodes@[u] == before[u]);
                    assert(strs[u] != strs[cur as int]);
                }
            }
        }
    }
    proof {
        assert(pv.take(pats.len() as int) =~= pv);
    }
    (nodes, Ghost(strs), Ghost(par))
}

} // verus!
