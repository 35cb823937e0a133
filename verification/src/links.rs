//! Failure links: what a compiled link is, and the bookkeeping of the
//! breadth-first pass that compiles them.

use vstd::prelude::*;
use crate::node::{TrieNode, find_edge, lemma_find_edge_at};
use crate::automaton::{path_at, wf_nodes, node_ok, edge_ok, link_ok, is_proper_suffix, is_suffix, settle, target, next_state, lemma_settle, lemma_next_state};

verus! {

/// Two nodes that differ at most in their failure link.
pub open spec fn same_but_fail(x: TrieNode, y: TrieNode) -> bool {
    &&& x.children == y.children
    &&& x.is_end_words == y.is_end_words
    &&& x.depth == y.depth
    &&& x.path == y.path
    &&& x.parent == y.parent
}

/// Two arenas that hold the same trie and differ at most in failure links.
pub open spec fn same_skeleton(a: Seq<TrieNode>, b: Seq<TrieNode>) -> bool {
    &&& a.len() == b.len()
    &&& forall|i: int| 0 <= i < a.len() ==> same_but_fail(#[trigger] a[i], b[i])
}

/// `b` is `a` with the failure link of node `t` set to `v`.
pub open spec fn relinked(a: Seq<TrieNode>, b: Seq<TrieNode>, t: int, v: int) -> bool {
    &&& a.len() == b.len()
    &&& 0 < t < a.len()
    &&& 0 <= v < a.len()
    &&& forall|i: int| 0 <= i < a.len() && i != t ==> #[trigger] b[i] == a[i]
    &&& same_but_fail(a[t], b[t])
    &&& b[t].fail == Some(v as usize)
}

/// The node from which node `j` is entered.
pub open spec fn parent_node(nodes: Seq<TrieNode>, j: int) -> int {
    nodes[j].parent@.0
}

/// The character on which node `j` is entered.
pub open spec fn parent_label(nodes: Seq<TrieNode>, j: int) -> char {
    nodes[nodes[j].parent@.0].children@[nodes[j].parent@.1].0
}

/// The link that node `j` must carry: the root for a child of the root;
/// otherwise the state reached from the parent's link on the character
/// that leads to `j`.
pub open spec fn expected_fail(nodes: Seq<TrieNode>, j: int) -> int {
    let p = parent_node(nodes, j);
    if p == 0 {
        0
    } else {
        next_state(nodes, nodes[p].fail->0 as int, parent_label(nodes, j))
    }
}

/// Node `j` carries the link it must carry.
pub open spec fn link_compiled(nodes: Seq<TrieNode>, j: int) -> bool {
    nodes[j].fail == Some(expected_fail(nodes, j) as usize)
}

/// Every node but the root carries the link it must carry.
pub open spec fn links_compiled(nodes: Seq<TrieNode>) -> bool {
    forall|j: int| 0 < j < nodes.len() ==> #[trigger] link_compiled(nodes, j)
}

/// Appending the same character keeps a tail a tail.
pub proof fn lemma_suffix_push(a: Seq<char>, b: Seq<char>, c: char)
    requires
        is_suffix(a, b),
    ensures
        is_suffix(a.push(c), b.push(c)),
{
    assert(b.push(c).skip(b.len() + 1 - (a.len() + 1)) =~= b.skip(b.len() - a.len()).push(c));
}

/// A tail of a proper tail is a proper tail.
pub proof fn lemma_suffix_chain(a: Seq<char>, b: Seq<char>, c: Seq<char>)
    requires
        is_suffix(a, b),
        is_proper_suffix(b, c),
    ensures
        is_proper_suffix(a, c),
{
    assert(c.skip(c.len() - a.len()) =~= c.skip(c.len() - b.len()).skip(b.len() - a.len()));
}

/// Facts about a node other than the root and the node it is entered from.
pub proof fn lemma_parent(nodes: Seq<TrieNode>, j: int)
    requires
        wf_nodes(nodes),
        0 < j < nodes.len(),
    ensures
        0 <= parent_node(nodes, j) < nodes.len(),
        parent_node(nodes, j) != j,
        nodes[j].depth == nodes[parent_node(nodes, j)].depth + 1,
        nodes[j].path@ == nodes[parent_node(nodes, j)].path@.push(parent_label(nodes, j)),
        0 <= nodes[j].parent@.1 < nodes[parent_node(nodes, j)].children@.len(),
        nodes[parent_node(nodes, j)].children@[nodes[j].parent@.1].1 == j,
{
    assert(node_ok(nodes, j));
    let p = parent_node(nodes, j);
    assert(node_ok(nodes, p));
    assert(edge_ok(nodes, p, nodes[j].parent@.1));
}

/// The link a node must carry lies in the arena and leads to a proper tail
/// of the node's path.
pub proof fn lemma_expected_fail(nodes: Seq<TrieNode>, j: int)
    requires
        wf_nodes(nodes),
        0 < j < nodes.len(),
    ensures
        0 <= expected_fail(nodes, j) < nodes.len(),
        is_proper_suffix(nodes[expected_fail(nodes, j)].path@, nodes[j].path@),
{
    lemma_parent(nodes, j);
    let p = parent_node(nodes, j);
    let c = parent_label(nodes, j);
    let pj = nodes[j].path@;
    assert(node_ok(nodes, 0));
    if p == 0 {
        assert(pj.skip(pj.len() - 0) =~= nodes[0].path@);
    } else {
        assert(node_ok(nodes, p));
        let f = nodes[p].fail->0 as int;
        lemma_settle(nodes, f, c);
        lemma_next_state(nodes, f, c);
        let s = settle(nodes, f, c);
        if target(nodes, f, c) is Some {
            lemma_suffix_chain(nodes[s].path@, nodes[f].path@, nodes[p].path@);
            lemma_suffix_push(nodes[s].path@, nodes[p].path@, c);
        } else {
            assert(pj.skip(pj.len() - 0) =~= nodes[0].path@);
        }
    }
}

/// Setting a link to a node whose path is a proper tail keeps the arena
/// well formed and the trie the same.
pub proof fn lemma_relink_wf(a: Seq<TrieNode>, b: Seq<TrieNode>, t: int, v: int)
    requires
        wf_nodes(a),
        relinked(a, b, t, v),
        is_proper_suffix(a[v].path@, a[t].path@),
    ensures
        wf_nodes(b),
        same_skeleton(a, b),
{
    assert forall|i: int| 0 <= i < b.len() implies #[trigger] node_ok(b, i) by {
        assert(node_ok(a, i));
        assert(same_but_fail(a[i], b[i]));
        assert forall|e: int| 0 <= e < b[i].children@.len() implies #[trigger] edge_ok(b, i, e) by {
            assert(edge_ok(a, i, e));
            let j = a[i].children@[e].1 as int;
            assert(same_but_fail(a[j], b[j]));
        }
        if i > 0 {
            assert(link_ok(a, i));
            let f = b[i].fail->0 as int;
            assert(same_but_fail(a[f], b[f]));
            let q = a[i].parent@.0;
            assert(same_but_fail(a[q], b[q]));
            assert(link_ok(b, i));
        }
    }
    assert forall|i: int| 0 <= i < a.len() implies same_but_fail(#[trigger] a[i], b[i]) by {}
    assert forall|i: int, j: int| 0 <= i < j < b.len() implies #[trigger] path_at(b, i) != #[trigger] path_at(b, j) by {
        assert(same_but_fail(a[i], b[i]));
        assert(same_but_fail(a[j], b[j]));
        assert(path_at(a, i) != path_at(a, j));
    }
}

/// Falling back from a node that is less deep than the relinked one is
/// not affected by the new link.
pub proof fn lemma_settle_frame(a: Seq<TrieNode>, b: Seq<TrieNode>, t: int, v: int, s: int, c: char)
    requires
        wf_nodes(a),
        relinked(a, b, t, v),
        0 <= s < a.len(),
        a[s].depth < a[t].depth,
    ensures
        settle(b, s, c) == settle(a, s, c),
        next_state(b, s, c) == next_state(a, s, c),
    decreases a[s].depth,
{
    assert(node_ok(a, s));
    assert(b[s] == a[s]);
    lemma_settle(a, s, c);
    if find_edge(a[s].children@, c) is None {
        match a[s].fail {
            Some(f) => {
                assert(node_ok(a, f as int));
                assert(b[f as int] == a[f as int]);
                lemma_settle_frame(a, b, t, v, f as int, c);
            },
            None => {},
        }
    }
    let r = settle(a, s, c);
    assert(b[r] == a[r]);
}

/// The link a node must carry is not affected by a new link on a node
/// that is at least as deep.
pub proof fn lemma_expected_frame(a: Seq<TrieNode>, b: Seq<TrieNode>, t: int, v: int, j: int)
    requires
        wf_nodes(a),
        relinked(a, b, t, v),
        0 < j < a.len(),
        a[j].depth <= a[t].depth,
    ensures
        expected_fail(b, j) == expected_fail(a, j),
{
    lemma_parent(a, j);
    let p = parent_node(a, j);
    assert(same_but_fail(a[j], b[j]));
    assert(b[p] == a[p]);
    if p != 0 {
        assert(node_ok(a, p));
        let f = a[p].fail->0 as int;
        assert(node_ok(a, f));
        lemma_settle_frame(a, b, t, v, f, parent_label(a, j));
    }
}

/// The edge that leads to node `j` has been handled by the pass: the pass
/// is at entry `head` of its queue (-1 while it is at the root) and has
/// handled the first `e` edges of that node.
pub open spec fn handled(nodes: Seq<TrieNode>, pos: Seq<int>, head: int, e: int, j: int) -> bool {
    let pp = nodes[j].parent@.0;
    let pe = nodes[j].parent@.1;
    if pp == 0 {
        head >= 0 || pe < e
    } else {
        pos[pp] >= 0 && (pos[pp] < head || (pos[pp] == head && pe < e))
    }
}

/// The node whose edges the pass is handling.
pub open spec fn current(queue: Seq<usize>, head: int) -> int {
    if head < 0 {
        0
    } else {
        queue[head] as int
    }
}

/// A node is in the queue exactly if the edge that leads to it has been
/// handled; a node in the queue carries its final link.
pub open spec fn node_inv(nodes: Seq<TrieNode>, queue: Seq<usize>, pos: Seq<int>, head: int, e: int, j: int) -> bool {
    &&& pos[j] >= 0 <==> handled(nodes, pos, head, e, j)
    &&& pos[j] >= 0 ==> {
        &&& pos[j] < queue.len()
        &&& queue[pos[j]] == j
        &&& link_compiled(nodes, j)
        &&& head < queue.len() ==> nodes[j].depth <= nodes[current(queue, head)].depth + 1
    }
}

/// The queue lists nodes by depth.
pub open spec fn by_depth(nodes: Seq<TrieNode>, queue: Seq<usize>) -> bool {
    forall|x: int, y: int| 0 <= x <= y < queue.len() ==> nodes[#[trigger] queue[x] as int].depth <= nodes[#[trigger] queue[y] as int].depth
}

/// What holds throughout the breadth-first pass. `pos` gives for each
/// node its place in the queue, or a negative number.
pub open spec fn bfs_inv(nodes: Seq<TrieNode>, queue: Seq<usize>, pos: Seq<int>, head: int, e: int) -> bool {
    &&& wf_nodes(nodes)
    &&& pos.len() == nodes.len()
    &&& pos[0] < 0
    &&& -1 <= head <= queue.len()
    &&& head < queue.len() ==> 0 <= e <= nodes[current(queue, head)].children@.len()
    &&& head == queue.len() ==> e == 0
    &&& forall|k: int| 0 <= k < queue.len() ==> 0 < #[trigger] queue[k] < nodes.len() && pos[queue[k] as int] == k
    &&& forall|j: int| 0 < j < nodes.len() ==> #[trigger] node_inv(nodes, queue, pos, head, e, j)
    &&& by_depth(nodes, queue)
}

/// The pass starts at the root with an empty queue.
pub proof fn lemma_bfs_start(nodes: Seq<TrieNode>)
    requires
        wf_nodes(nodes),
    ensures
        bfs_inv(nodes, Seq::<usize>::empty(), Seq::new(nodes.len(), |j: int| -1int), -1, 0),
{
    let queue = Seq::<usize>::empty();
    let pos = Seq::new(nodes.len(), |j: int| -1int);
    assert(node_ok(nodes, 0));
    assert forall|j: int| 0 < j < nodes.len() implies #[trigger] node_inv(nodes, queue, pos, -1, 0, j) by {
        lemma_parent(nodes, j);
    }
}

/// One more edge of the current node is handled: its target gets its
/// final link and joins the queue.
pub proof fn lemma_bfs_push(a: Seq<TrieNode>, b: Seq<TrieNode>, queue: Seq<usize>, pos: Seq<int>, head: int, e: int, t: int)
    requires
        bfs_inv(a, queue, pos, head, e),
        head < queue.len(),
        e < a[current(queue, head)].children@.len(),
        t == a[current(queue, head)].children@[e].1,
        0 < t < a.len(),
        relinked(a, b, t, expected_fail(a, t)),
    ensures
        wf_nodes(b),
        same_skeleton(a, b),
        pos[t] < 0,
        bfs_inv(b, queue.push(t as usize), pos.update(t, queue.len() as int), head, e + 1),
{
    let cur = current(queue, head);
    let v = expected_fail(a, t);
    let queue2 = queue.push(t as usize);
    let pos2 = pos.update(t, queue.len() as int);
    assert(node_ok(a, 0));
    if head >= 0 {
        assert(0 < queue[head] < a.len() && pos[queue[head] as int] == head);
    }
    assert(node_ok(a, cur));
    assert(edge_ok(a, cur, e));
    assert(a[t].parent@ == (cur, e));
    lemma_parent(a, t);
    lemma_expected_fail(a, t);
    lemma_relink_wf(a, b, t, v);
    assert(node_inv(a, queue, pos, head, e, t));
    assert(!handled(a, pos, head, e, t));
    assert(pos[t] < 0);
    assert(same_but_fail(a[cur], b[cur]));
    assert forall|k: int| 0 <= k < queue2.len() implies 0 < #[trigger] queue2[k] < b.len() && pos2[queue2[k] as int] == k by {
        if k < queue.len() {
            assert(0 < queue[k] < a.len() && pos[queue[k] as int] == k);
        }
    }
    assert forall|j: int| 0 < j < b.len() implies #[trigger] node_inv(b, queue2, pos2, head, e + 1, j) by {
        assert(node_inv(a, queue, pos, head, e, j));
        assert(same_but_fail(a[j], b[j]));
        lemma_parent(a, j);
        let pp = a[j].parent@.0;
        let pe = a[j].parent@.1;
        if j == t {
            lemma_expected_frame(a, b, t, v, t);
            assert(handled(b, pos2, head, e + 1, j));
            assert(link_compiled(b, j));
        } else {
            assert(b[j] == a[j]);
            assert(!(pp == cur && pe == e)) by {
                if pp == cur && pe == e {
                    assert(a[pp].children@[pe].1 == j);
                }
            }
            if pp != 0 {
                if pp == t {
                    assert(pos2[pp] == queue.len());
                    assert(!handled(b, pos2, head, e + 1, j));
                    assert(!handled(a, pos, head, e, j));
                } else {
                    assert(pos2[pp] == pos[pp]);
                    if pos[pp] == head && head >= 0 {
                        assert(pp < a.len());
                        if pp > 0 {
                            assert(node_inv(a, queue, pos, head, e, pp));
                            assert(pp == cur);
                        }
                    }
                }
            }
            assert(handled(b, pos2, head, e + 1, j) <==> handled(a, pos, head, e, j));
            if pos[j] >= 0 {
                assert(a[j].depth <= a[t].depth);
                lemma_expected_frame(a, b, t, v, j);
                assert(link_compiled(b, j));
            }
        }
    }
    assert forall|x: int, y: int| 0 <= x <= y < queue2.len() implies b[#[trigger] queue2[x] as int].depth <= b[#[trigger] queue2[y] as int].depth by {
        let jx = queue2[x] as int;
        let jy = queue2[y] as int;
        assert(same_but_fail(a[jx], b[jx]));
        assert(same_but_fail(a[jy], b[jy]));
        if y < queue.len() {
            assert(a[queue[x] as int].depth <= a[queue[y] as int].depth);
        } else if x < queue.len() {
            assert(0 < queue[x] < a.len() && pos[queue[x] as int] == x);
            assert(node_inv(a, queue, pos, head, e, jx));
        }
    }
}

/// All edges of the current node are handled: the pass moves on to the
/// next entry of the queue.
pub proof fn lemma_bfs_advance(nodes: Seq<TrieNode>, queue: Seq<usize>, pos: Seq<int>, head: int, e: int)
    requires
        bfs_inv(nodes, queue, pos, head, e),
        head < queue.len(),
        e == nodes[current(queue, head)].children@.len(),
    ensures
        bfs_inv(nodes, queue, pos, head + 1, 0),
{
    let cur = current(queue, head);
    if head >= 0 {
        assert(0 < queue[head] < nodes.len() && pos[queue[head] as int] == head);
    }
    if head + 1 < queue.len() {
        assert(0 < queue[head + 1] < nodes.len() && pos[queue[head + 1] as int] == head + 1);
        assert(node_ok(nodes, queue[head + 1] as int));
    }
    assert forall|j: int| 0 < j < nodes.len() implies #[trigger] node_inv(nodes, queue, pos, head + 1, 0, j) by {
        assert(node_inv(nodes, queue, pos, head, e, j));
        lemma_parent(nodes, j);
        let pp = nodes[j].parent@.0;
        if pp != 0 && pos[pp] >= 0 {
            assert(node_inv(nodes, queue, pos, head, e, pp));
        }
        assert(handled(nodes, pos, head + 1, 0, j) <==> handled(nodes, pos, head, e, j));
        if pos[j] >= 0 && head + 1 < queue.len() {
            let nxt = queue[head + 1] as int;
            if head >= 0 {
                assert(nodes[queue[head] as int].depth <= nodes[queue[head + 1] as int].depth);
            } else {
                assert(node_ok(nodes, 0));
            }
        }
    }
}

/// Once the queue is used up, every node has been in it.
pub proof fn lemma_bfs_reached(nodes: Seq<TrieNode>, queue: Seq<usize>, pos: Seq<int>, j: int)
    requires
        bfs_inv(nodes, queue, pos, queue.len() as int, 0),
        0 < j < nodes.len(),
    ensures
        pos[j] >= 0,
        link_compiled(nodes, j),
    decreases nodes[j].depth,
{
    lemma_parent(nodes, j);
    let pp = parent_node(nodes, j);
    assert(node_inv(nodes, queue, pos, queue.len() as int, 0, j));
    if pp != 0 {
        lemma_bfs_reached(nodes, queue, pos, pp);
        assert(node_inv(nodes, queue, pos, queue.len() as int, 0, pp));
    }
}

/// The queue never holds more entries than the arena has nodes.
pub proof fn lemma_queue_bound(nodes: Seq<TrieNode>, queue: Seq<usize>, pos: Seq<int>, head: int, e: int)
    requires
        bfs_inv(nodes, queue, pos, head, e),
    ensures
        queue.len() <= nodes.len(),
{
    let q = Seq::new(queue.len(), |k: int| queue[k] as int);
    assert forall|x: int, y: int| 0 <= x < q.len() && 0 <= y < q.len() && x != y implies q[x] != q[y] by {
        assert(0 < queue[x] < nodes.len() && pos[queue[x] as int] == x);
        assert(0 < queue[y] < nodes.len() && pos[queue[y] as int] == y);
    }
    q.unique_seq_to_set();
    vstd::set_lib::lemma_int_range(0, nodes.len() as int);
    assert forall|x: int| q.to_set().contains(x) implies vstd::set_lib::set_int_range(0, nodes.len() as int).contains(x) by {
        let k = choose|k: int| 0 <= k < q.len() && q[k] == x;
        assert(0 < queue[k] < nodes.len() && pos[queue[k] as int] == k);
    }
    vstd::set_lib::lemma_len_subset(q.to_set(), vstd::set_lib::set_int_range(0, nodes.len() as int));
}

/// Two sequences that end alike after appending a character each ended
/// alike before, and the characters are the same.
pub proof fn lemma_suffix_pop(a: Seq<char>, ca: char, b: Seq<char>, cb: char)
    requires
        is_suffix(a.push(ca), b.push(cb)),
    ensures
        ca == cb,
        is_suffix(a, b),
{
    let x = a.push(ca);
    let y = b.push(cb);
    let d = y.len() - x.len();
    assert(y.skip(d)[a.len() as int] == x[a.len() as int]);
    assert forall|k: int| 0 <= k < a.len() implies b.skip(d)[k] == a[k] by {
        assert(y.skip(d)[k] == x[k]);
    }
    assert(b.skip(b.len() - a.len()) =~= a);
}

/// Of two tails of one sequence, the shorter is a tail of the longer.
pub proof fn lemma_suffix_order(a: Seq<char>, b: Seq<char>, t: Seq<char>)
    requires
        is_suffix(a, t),
        is_suffix(b, t),
        a.len() <= b.len(),
    ensures
        is_suffix(a, b),
{
    assert(b.skip(b.len() - a.len()) =~= t.skip(t.len() - b.len()).skip(b.len() - a.len()));
    assert(t.skip(t.len() - b.len()).skip(b.len() - a.len()) =~= t.skip(t.len() - a.len()));
}

/// A node other than the root is found from its parent by the last
/// character of its path.
pub proof fn lemma_parent_edge(nodes: Seq<TrieNode>, i: int)
    requires
        wf_nodes(nodes),
        0 < i < nodes.len(),
    ensures
        find_edge(nodes[parent_node(nodes, i)].children@, parent_label(nodes, i)) == Some(i as usize),
{
    lemma_parent(nodes, i);
    let pp = parent_node(nodes, i);
    assert(node_ok(nodes, pp));
    lemma_find_edge_at(nodes[pp].children@, nodes[i].parent@.1);
}

/// The link of a node leads to the longest proper tail of its path that
/// is a path of the trie: no node whose path is a proper tail of the path
/// of `j` is deeper than the node that `j` falls back to.
pub proof fn lemma_link_longest(nodes: Seq<TrieNode>, j: int, i: int)
    requires
        wf_nodes(nodes),
        links_compiled(nodes),
        0 < j < nodes.len(),
        0 <= i < nodes.len(),
        is_proper_suffix(nodes[i].path@, nodes[j].path@),
    ensures
        nodes[i].depth <= nodes[nodes[j].fail->0 as int].depth,
    decreases nodes[j].depth, 0int,
{
    assert(node_ok(nodes, i));
    assert(node_ok(nodes, j));
    assert(node_ok(nodes, 0));
    if nodes[i].depth > 0 {
        lemma_parent(nodes, i);
        lemma_parent(nodes, j);
        let p = parent_node(nodes, j);
        let c = parent_label(nodes, j);
        let pi = parent_node(nodes, i);
        let ci = parent_label(nodes, i);
        assert(node_ok(nodes, p));
        assert(node_ok(nodes, pi));
        lemma_suffix_pop(nodes[pi].path@, ci, nodes[p].path@, c);
        lemma_parent_edge(nodes, i);
        assert(p != 0);
        let f = nodes[p].fail->0 as int;
        assert(node_ok(nodes, f));
        assert(is_proper_suffix(nodes[pi].path@, nodes[p].path@));
        lemma_link_longest(nodes, p, pi);
        lemma_suffix_order(nodes[pi].path@, nodes[f].path@, nodes[p].path@);
        lemma_settle_longest(nodes, f, c, pi);
        lemma_next_state(nodes, f, c);
        assert(link_compiled(nodes, j));
    }
}

/// Falling back from `s` on `c` stops at the deepest node that has an
/// edge on `c` and whose path is a tail of the path of `s`: if node `i` is
/// such a node, an edge on `c` is found, at a node no less deep than `i`.
pub proof fn lemma_settle_longest(nodes: Seq<TrieNode>, s: int, c: char, i: int)
    requires
        wf_nodes(nodes),
        links_compiled(nodes),
        0 <= s < nodes.len(),
        0 <= i < nodes.len(),
        is_suffix(nodes[i].path@, nodes[s].path@),
        find_edge(nodes[i].children@, c) is Some,
    ensures
        target(nodes, s, c) is Some,
        nodes[i].depth <= nodes[settle(nodes, s, c)].depth,
    decreases nodes[s].depth, 1int,
{
    assert(node_ok(nodes, i));
    assert(node_ok(nodes, s));
    assert(node_ok(nodes, 0));
    if find_edge(nodes[s].children@, c) is None {
        assert(i != s);
        if i < s {
            assert(path_at(nodes, i) != path_at(nodes, s));
        } else {
            assert(path_at(nodes, s) != path_at(nodes, i));
        }
        let ps = nodes[s].path@;
        assert(ps.skip(0) =~= ps);
        assert(is_proper_suffix(nodes[i].path@, ps));
        assert(s != 0);
        let f = nodes[s].fail->0 as int;
        assert(node_ok(nodes, f));
        lemma_link_longest(nodes, s, i);
        lemma_suffix_order(nodes[i].path@, nodes[f].path@, ps);
        lemma_settle_longest(nodes, f, c, i);
    }
}

} // verus!
