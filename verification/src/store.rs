//! How the arena changes when a pattern is inserted, and what that keeps.

use vstd::prelude::*;
use crate::node::{TrieNode, find_edge, lemma_find_edge_some};
use crate::automaton::{is_prefix, in_use, no_idle_nodes, path_at, wf_nodes, node_ok, edge_ok, link_ok, patterns_of};
use crate::links::{same_skeleton, same_but_fail};

verus! {

/// Node `y` is node `x` after insertions: the same place in the trie and
/// the same link; its edges are those of `x`, in order, and possibly more
/// behind them; it is terminal if `x` was.
pub open spec fn kept(x: TrieNode, y: TrieNode) -> bool {
    &&& y.fail == x.fail
    &&& y.depth == x.depth
    &&& y.path == x.path
    &&& y.parent == x.parent
    &&& x.is_end_words ==> y.is_end_words
    &&& x.children@.len() <= y.children@.len()
    &&& y.children@.take(x.children@.len() as int) == x.children@
}

/// `after` holds every node of `before` at its index, kept, and behind
/// them new nodes whose links lead to the root.
pub open spec fn extends(before: Seq<TrieNode>, after: Seq<TrieNode>) -> bool {
    &&& before.len() <= after.len()
    &&& forall|i: int| 0 <= i < before.len() ==> kept(#[trigger] before[i], after[i])
    &&& forall|i: int| before.len() <= i < after.len() ==> (#[trigger] after[i]).fail == Some(0usize)
}

/// An arena extends itself.
pub proof fn lemma_extends_self(a: Seq<TrieNode>)
    ensures
        extends(a, a),
{
    assert forall|i: int| 0 <= i < a.len() implies kept(#[trigger] a[i], a[i]) by {
        assert(a[i].children@.take(a[i].children@.len() as int) =~= a[i].children@);
    }
}

/// Hanging a new node into an extension gives an extension.
pub proof fn lemma_extends_grow(a: Seq<TrieNode>, b: Seq<TrieNode>, c: Seq<TrieNode>, cur: int, ch: char)
    requires
        extends(a, b),
        grown(b, c, cur, ch),
    ensures
        extends(a, c),
{
    assert forall|i: int| 0 <= i < a.len() implies kept(#[trigger] a[i], c[i]) by {
        assert(kept(a[i], b[i]));
        if i == cur {
            assert(c[i].children@.take(a[i].children@.len() as int) =~= b[i].children@.take(a[i].children@.len() as int));
        }
    }
    assert forall|i: int| a.len() <= i < c.len() implies (#[trigger] c[i]).fail == Some(0usize) by {
        if i < b.len() {
            assert(b[i].fail == Some(0usize));
        }
    }
}

/// Marking a node of an extension terminal gives an extension.
pub proof fn lemma_extends_mark(a: Seq<TrieNode>, b: Seq<TrieNode>, c: Seq<TrieNode>, cur: int)
    requires
        extends(a, b),
        marked(b, c, cur),
    ensures
        extends(a, c),
{
    assert forall|i: int| 0 <= i < a.len() implies kept(#[trigger] a[i], c[i]) by {
        assert(kept(a[i], b[i]));
    }
    assert forall|i: int| a.len() <= i < c.len() implies (#[trigger] c[i]).fail == Some(0usize) by {
        assert(b[i].fail == Some(0usize));
    }
}

/// `after` is `before` with one new node appended, hung below `cur` on `c`.
pub open spec fn grown(before: Seq<TrieNode>, after: Seq<TrieNode>, cur: int, c: char) -> bool {
    let fresh = before.len() as int;
    &&& 0 <= cur < before.len()
    &&& after.len() == before.len() + 1
    &&& forall|i: int| 0 <= i < before.len() && i != cur ==> after[i] == before[i]
    &&& after[cur].children@ == before[cur].children@.push((c, fresh as usize))
    &&& after[cur].is_end_words == before[cur].is_end_words
    &&& after[cur].fail == before[cur].fail
    &&& after[cur].depth == before[cur].depth
    &&& after[cur].path == before[cur].path
    &&& after[cur].parent == before[cur].parent
    &&& after[fresh].children@.len() == 0
    &&& !after[fresh].is_end_words
    &&& after[fresh].fail == Some(0usize)
    &&& after[fresh].depth == before[cur].depth + 1
    &&& after[fresh].path@ == before[cur].path@.push(c)
    &&& after[fresh].parent@ == (cur, before[cur].children@.len() as int)
}

/// Hanging a new node below a node that had no edge on `c` keeps the arena
/// well formed and the pattern set unchanged.
pub proof fn lemma_grow(before: Seq<TrieNode>, after: Seq<TrieNode>, cur: int, c: char)
    requires
        wf_nodes(before),
        grown(before, after, cur, c),
        find_edge(before[cur].children@, c) is None,
        before.len() < usize::MAX,
    ensures
        wf_nodes(after),
        patterns_of(after) == patterns_of(before),
{
    let fresh = before.len() as int;
    lemma_find_edge_some(before[cur].children@, c);
    assert forall|i: int| 0 <= i < after.len() implies #[trigger] node_ok(after, i) by {
        if i == fresh {
            assert(node_ok(before, cur));
            assert(node_ok(before, 0));
            let p = after[fresh].path@;
            assert(p.skip(p.len() - 0) =~= after[0].path@);
            assert(after[cur].children@[before[cur].children@.len() as int] == (c, fresh as usize));
            assert(link_ok(after, fresh));
        } else {
            assert(node_ok(before, i));
            assert forall|e: int| 0 <= e < after[i].children@.len() implies #[trigger] edge_ok(after, i, e) by {
                if i == cur && e == before[cur].children@.len() {
                } else {
                    assert(edge_ok(before, i, e));
                    assert(after[i].children@[e] == before[i].children@[e]);
                }
            }
            if i > 0 {
                assert(link_ok(before, i));
                let f = before[i].fail->0 as int;
                let q = before[i].parent@;
                assert(after[q.0].children@[q.1] == before[q.0].children@[q.1]);
                assert(after[f].path@ == before[f].path@);
                assert(link_ok(after, i));
            }
        }
    }
    assert forall|i: int, j: int| 0 <= i < j < after.len() implies #[trigger] path_at(after, i) != #[trigger] path_at(after, j) by {
        if j < fresh {
            assert(path_at(before, i) != path_at(before, j));
        } else if path_at(after, i) == path_at(after, j) {
            assert(node_ok(before, i));
            assert(node_ok(before, 0));
            assert(link_ok(before, i));
            let q = before[i].parent@;
            assert(node_ok(before, q.0));
            assert(edge_ok(before, q.0, q.1));
            let up = before[q.0].path@;
            let lab = before[q.0].children@[q.1].0;
            assert(up.push(lab).drop_last() =~= up);
            assert(before[cur].path@.push(c).drop_last() =~= before[cur].path@);
            assert(up.push(lab).last() == c);
            if q.0 < cur {
                assert(path_at(before, q.0) != path_at(before, cur));
            } else if cur < q.0 {
                assert(path_at(before, cur) != path_at(before, q.0));
            }
            assert(before[cur].children@[q.1].0 == c);
        }
    }
    assert forall|w: Seq<char>| patterns_of(after).contains(w) <==> patterns_of(before).contains(w) by {
        if patterns_of(after).contains(w) {
            let i = choose|i: int| 0 <= i < after.len() && #[trigger] after[i].is_end_words && after[i].path@ == w;
            assert(before[i].is_end_words && before[i].path@ == w);
        }
        if patterns_of(before).contains(w) {
            let i = choose|i: int| 0 <= i < before.len() && #[trigger] before[i].is_end_words && before[i].path@ == w;
            assert(after[i].is_end_words && after[i].path@ == w);
        }
    }
    assert(patterns_of(after) =~= patterns_of(before));
}

/// `after` is `before` with node `cur` marked terminal.
pub open spec fn marked(before: Seq<TrieNode>, after: Seq<TrieNode>, cur: int) -> bool {
    &&& 0 <= cur < before.len()
    &&& after.len() == before.len()
    &&& forall|i: int| 0 <= i < before.len() && i != cur ==> after[i] == before[i]
    &&& after[cur].children == before[cur].children
    &&& after[cur].is_end_words
    &&& after[cur].fail == before[cur].fail
    &&& after[cur].depth == before[cur].depth
    &&& after[cur].path == before[cur].path
    &&& after[cur].parent == before[cur].parent
}

/// Marking a node terminal adds its path to the pattern set and keeps the
/// arena well formed.
pub proof fn lemma_mark(before: Seq<TrieNode>, after: Seq<TrieNode>, cur: int)
    requires
        wf_nodes(before),
        marked(before, after, cur),
    ensures
        wf_nodes(after),
        patterns_of(after) == patterns_of(before).insert(before[cur].path@),
{
    assert forall|i: int| 0 <= i < after.len() implies #[trigger] node_ok(after, i) by {
        assert(node_ok(before, i));
        assert forall|e: int| 0 <= e < after[i].children@.len() implies #[trigger] edge_ok(after, i, e) by {
            assert(edge_ok(before, i, e));
        }
        if i > 0 {
            assert(link_ok(before, i));
            assert(link_ok(after, i));
        }
    }
    assert forall|i: int, j: int| 0 <= i < j < after.len() implies #[trigger] path_at(after, i) != #[trigger] path_at(after, j) by {
        assert(path_at(before, i) != path_at(before, j));
    }
    let goal = patterns_of(before).insert(before[cur].path@);
    assert forall|w: Seq<char>| patterns_of(after).contains(w) <==> goal.contains(w) by {
        if patterns_of(after).contains(w) {
            let i = choose|i: int| 0 <= i < after.len() && #[trigger] after[i].is_end_words && after[i].path@ == w;
            if i != cur {
                assert(before[i].is_end_words && before[i].path@ == w);
            }
        }
        if goal.contains(w) {
            if w == before[cur].path@ {
                assert(after[cur].is_end_words && after[cur].path@ == w);
            } else {
                let i = choose|i: int| 0 <= i < before.len() && #[trigger] before[i].is_end_words && before[i].path@ == w;
                assert(after[i].is_end_words && after[i].path@ == w);
            }
        }
    }
    assert(patterns_of(after) =~= goal);
}

/// Arenas that differ at most in failure links hold the same patterns.
pub proof fn lemma_same_patterns(a: Seq<TrieNode>, b: Seq<TrieNode>)
    requires
        same_skeleton(a, b),
    ensures
        patterns_of(a) == patterns_of(b),
{
    assert forall|w: Seq<char>| patterns_of(a).contains(w) <==> patterns_of(b).contains(w) by {
        if patterns_of(a).contains(w) {
            let i = choose|i: int| 0 <= i < a.len() && #[trigger] a[i].is_end_words && a[i].path@ == w;
            assert(same_but_fail(a[i], b[i]));
            assert(b[i].is_end_words && b[i].path@ == w);
        }
        if patterns_of(b).contains(w) {
            let i = choose|i: int| 0 <= i < b.len() && #[trigger] b[i].is_end_words && b[i].path@ == w;
            assert(same_but_fail(a[i], b[i]));
            assert(a[i].is_end_words && a[i].path@ == w);
        }
    }
    assert(patterns_of(a) =~= patterns_of(b));
}

/// Differing at most in failure links carries over two steps.
pub proof fn lemma_skeleton_trans(a: Seq<TrieNode>, b: Seq<TrieNode>, c: Seq<TrieNode>)
    requires
        same_skeleton(a, b),
        same_skeleton(b, c),
    ensures
        same_skeleton(a, c),
{
    assert forall|i: int| 0 <= i < a.len() implies same_but_fail(#[trigger] a[i], c[i]) by {
        assert(same_but_fail(a[i], b[i]));
        assert(same_but_fail(b[i], c[i]));
    }
}

/// Node `i` lies on the way to a terminal node or to node `cur`.
pub open spec fn in_use_or_above(nodes: Seq<TrieNode>, i: int, cur: int) -> bool {
    in_use(nodes, i) || is_prefix(path_at(nodes, i), path_at(nodes, cur))
}

/// A beginning stays a beginning when the longer sequence grows.
pub proof fn lemma_prefix_push(a: Seq<char>, b: Seq<char>, c: char)
    requires
        is_prefix(a, b),
    ensures
        is_prefix(a, b.push(c)),
{
    assert(b.push(c).take(a.len() as int) =~= b.take(a.len() as int));
}

/// After a new node was hung below `cur`, every node that lay on the way
/// to a terminal node or to `cur` lies on the way to a terminal node or
/// to the new node, and so does the new node.
pub proof fn lemma_grow_in_use(before: Seq<TrieNode>, after: Seq<TrieNode>, cur: int, c: char, i: int)
    requires
        grown(before, after, cur, c),
        0 <= i < after.len(),
        i < before.len() ==> in_use_or_above(before, i, cur),
    ensures
        in_use_or_above(after, i, before.len() as int),
{
    let fresh = before.len() as int;
    if i == fresh {
        assert(path_at(after, i).take(path_at(after, i).len() as int) =~= path_at(after, i));
    } else {
        assert(path_at(after, i) == path_at(before, i));
        if in_use(before, i) {
            let t = choose|t: int| 0 <= t < before.len() && before[t].is_end_words && is_prefix(path_at(before, i), #[trigger] path_at(before, t));
            assert(after[t].is_end_words && is_prefix(path_at(after, i), path_at(after, t)));
        } else {
            lemma_prefix_push(path_at(before, i), path_at(before, cur), c);
        }
    }
}

/// After `cur` was marked terminal, every node that lay on the way to a
/// terminal node or to `cur` lies on the way to a terminal node.
pub proof fn lemma_mark_in_use(before: Seq<TrieNode>, after: Seq<TrieNode>, cur: int, i: int)
    requires
        marked(before, after, cur),
        0 <= i < after.len(),
        in_use_or_above(before, i, cur),
    ensures
        in_use(after, i),
{
    assert(path_at(after, i) == path_at(before, i));
    if in_use(before, i) {
        let t = choose|t: int| 0 <= t < before.len() && before[t].is_end_words && is_prefix(path_at(before, i), #[trigger] path_at(before, t));
        assert(after[t].is_end_words && is_prefix(path_at(after, i), path_at(after, t)));
    } else {
        assert(after[cur].is_end_words && is_prefix(path_at(after, i), path_at(after, cur)));
    }
}

/// Arenas that differ at most in failure links have the same idle nodes.
pub proof fn lemma_same_use(a: Seq<TrieNode>, b: Seq<TrieNode>)
    requires
        same_skeleton(a, b),
        no_idle_nodes(a),
    ensures
        no_idle_nodes(b),
{
    assert forall|i: int| 0 < i < b.len() implies #[trigger] in_use(b, i) by {
        assert(in_use(a, i));
        let t = choose|t: int| 0 <= t < a.len() && a[t].is_end_words && is_prefix(path_at(a, i), #[trigger] path_at(a, t));
        assert(same_but_fail(a[i], b[i]));
        assert(same_but_fail(a[t], b[t]));
        assert(b[t].is_end_words && is_prefix(path_at(b, i), path_at(b, t)));
    }
}

} // verus!
