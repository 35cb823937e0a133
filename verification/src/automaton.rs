//! The mathematical model of the automaton and of a scan.

use vstd::prelude::*;
use crate::node::{TrieNode, find_edge, distinct_labels};

verus! {

/// ASCII-only case folding of one character.
pub open spec fn fold_char(c: char) -> char {
    if 'A' <= c && c <= 'Z' {
        ((c as u8) + 32) as char
    } else {
        c
    }
}

/// ASCII-only case folding of a whole text.
pub open spec fn fold_text(t: Seq<char>) -> Seq<char> {
    Seq::new(t.len(), |i: int| fold_char(t[i]))
}

/// `a` is a strictly shorter tail of `b`.
pub open spec fn is_proper_suffix(a: Seq<char>, b: Seq<char>) -> bool {
    a.len() < b.len() && b.skip(b.len() - a.len()) == a
}

/// `a` is a tail of `b`.
pub open spec fn is_suffix(a: Seq<char>, b: Seq<char>) -> bool {
    a.len() <= b.len() && b.skip(b.len() - a.len()) == a
}

/// Edge `e` of node `i` leads to a node one character deeper that names
/// this edge as its way in.
pub open spec fn edge_ok(nodes: Seq<TrieNode>, i: int, e: int) -> bool {
    let edge = nodes[i].children@[e];
    &&& edge.1 < nodes.len()
    &&& nodes[edge.1 as int].path@ == nodes[i].path@.push(edge.0)
    &&& nodes[edge.1 as int].parent@ == (i, e)
}

/// A node other than the root falls back to a node whose path is a proper
/// tail of its own, and is the target of the edge it names as its way in.
pub open spec fn link_ok(nodes: Seq<TrieNode>, i: int) -> bool {
    let n = nodes[i];
    &&& n.fail is Some
    &&& n.fail->0 < nodes.len()
    &&& is_proper_suffix(nodes[n.fail->0 as int].path@, n.path@)
    &&& 0 <= n.parent@.0 < nodes.len()
    &&& 0 <= n.parent@.1 < nodes[n.parent@.0].children@.len()
    &&& nodes[n.parent@.0].children@[n.parent@.1].1 == i
}

/// Everything the arena promises about node `i`.
pub open spec fn node_ok(nodes: Seq<TrieNode>, i: int) -> bool {
    let n = nodes[i];
    &&& n.depth == n.path@.len()
    &&& n.depth <= i
    &&& distinct_labels(n.children@)
    &&& forall|e: int| 0 <= e < n.children@.len() ==> #[trigger] edge_ok(nodes, i, e)
    &&& i > 0 ==> link_ok(nodes, i)
}

/// The path of node `i`.
pub open spec fn path_at(nodes: Seq<TrieNode>, i: int) -> Seq<char> {
    nodes[i].path@
}

/// No two nodes have the same path.
pub open spec fn paths_distinct(nodes: Seq<TrieNode>) -> bool {
    forall|i: int, j: int| 0 <= i < j < nodes.len() ==> #[trigger] path_at(nodes, i) != #[trigger] path_at(nodes, j)
}

/// The arena is a trie rooted at index 0, with one node for each path,
/// whose failure links point to proper tails.
pub open spec fn wf_nodes(nodes: Seq<TrieNode>) -> bool {
    &&& 1 <= nodes.len() <= usize::MAX
    &&& nodes[0].fail is None
    &&& forall|i: int| 0 <= i < nodes.len() ==> #[trigger] node_ok(nodes, i)
    &&& paths_distinct(nodes)
}

/// `a` is a beginning of `b`.
pub open spec fn is_prefix(a: Seq<char>, b: Seq<char>) -> bool {
    a.len() <= b.len() && b.take(a.len() as int) == a
}

/// The path of node `i` is a beginning of the path of a terminal node.
pub open spec fn in_use(nodes: Seq<TrieNode>, i: int) -> bool {
    exists|t: int| 0 <= t < nodes.len() && nodes[t].is_end_words && is_prefix(path_at(nodes, i), #[trigger] path_at(nodes, t))
}

/// Every node but the root lies on the way to a terminal node.
pub open spec fn no_idle_nodes(nodes: Seq<TrieNode>) -> bool {
    forall|i: int| 0 < i < nodes.len() ==> #[trigger] in_use(nodes, i)
}

/// The set of inserted patterns: the paths of the terminal nodes.
pub open spec fn patterns_of(nodes: Seq<TrieNode>) -> Set<Seq<char>> {
    Set::new(|w: Seq<char>| exists|i: int| 0 <= i < nodes.len() && #[trigger] nodes[i].is_end_words && nodes[i].path@ == w)
}

/// From state `s`, follow failure links until a node with an edge on `c`
/// is reached or no link is left.
pub open spec fn settle(nodes: Seq<TrieNode>, s: int, c: char) -> int
    decreases nodes[s].depth,
{
    if 0 <= s < nodes.len() && find_edge(nodes[s].children@, c) is None {
        match nodes[s].fail {
            Some(f) => if f < nodes.len() && nodes[f as int].depth < nodes[s].depth {
                settle(nodes, f as int, c)
            } else {
                s
            },
            None => s,
        }
    } else {
        s
    }
}

/// The child entered from state `s` on `c`, after falling back as needed.
pub open spec fn target(nodes: Seq<TrieNode>, s: int, c: char) -> Option<usize> {
    find_edge(nodes[settle(nodes, s, c)].children@, c)
}

/// The state after reading `c` in state `s`: the entered child, or the root.
pub open spec fn next_state(nodes: Seq<TrieNode>, s: int, c: char) -> int {
    match target(nodes, s, c) {
        Some(j) => j as int,
        None => 0,
    }
}

/// The state after reading the whole (unfolded) text from the root.
pub open spec fn state_after(nodes: Seq<TrieNode>, text: Seq<char>) -> int
    decreases text.len(),
{
    if text.len() == 0 {
        0
    } else {
        next_state(nodes, state_after(nodes, text.drop_last()), fold_char(text.last()))
    }
}

/// Reading the last character of `text` enters a terminal node, so a
/// keyword is reported there.
pub open spec fn reports_at_end(nodes: Seq<TrieNode>, text: Seq<char>) -> bool {
    &&& text.len() > 0
    &&& target(nodes, state_after(nodes, text.drop_last()), fold_char(text.last())) is Some
    &&& nodes[state_after(nodes, text)].is_end_words
}

/// The keyword reported at the end of `text`: as many folded characters
/// of the text's tail as the reached node is deep.
pub open spec fn reported_word(nodes: Seq<TrieNode>, text: Seq<char>) -> Seq<char> {
    fold_text(text.skip(text.len() - nodes[state_after(nodes, text)].depth))
}

/// The highlight put around a reported keyword.
pub open spec fn highlight(word: Seq<char>) -> Seq<char> {
    "<span class=\"keyword\">"@ + word + "</span>"@
}

/// The output after a keyword was reported: the characters of the keyword
/// that were already written (all but its last) are taken back, as far as
/// the output reaches, and the highlighted keyword is written instead.
pub open spec fn patch(out: Seq<char>, word: Seq<char>) -> Seq<char> {
    let keep = if out.len() >= word.len() - 1 {
        out.len() - (word.len() - 1)
    } else {
        0
    };
    out.take(keep) + highlight(word)
}

/// The rewritten text.
pub open spec fn rewritten(nodes: Seq<TrieNode>, text: Seq<char>) -> Seq<char>
    decreases text.len(),
{
    if text.len() == 0 {
        Seq::empty()
    } else {
        let before = rewritten(nodes, text.drop_last());
        if reports_at_end(nodes, text) {
            patch(before, reported_word(nodes, text))
        } else {
            before.push(fold_char(text.last()))
        }
    }
}

/// The number of characters at the end of the rewritten text that were
/// written after the last highlight.
pub open spec fn plain_run(nodes: Seq<TrieNode>, text: Seq<char>) -> nat
    decreases text.len(),
{
    if text.len() == 0 || reports_at_end(nodes, text) {
        0
    } else {
        plain_run(nodes, text.drop_last()) + 1
    }
}

/// Every highlight took the place of characters of its own keyword only:
/// whenever a keyword was reported, all its characters but the last stood
/// at the end of the output, written after the last highlight. Where this
/// fails, two reported keywords overlap and the rewritten text is damaged.
pub open spec fn patched_cleanly(nodes: Seq<TrieNode>, text: Seq<char>) -> bool
    decreases text.len(),
{
    if text.len() == 0 {
        true
    } else {
        &&& patched_cleanly(nodes, text.drop_last())
        &&& reports_at_end(nodes, text) ==> reported_word(nodes, text).len() - 1 <= plain_run(
            nodes,
            text.drop_last(),
        )
    }
}

/// One more occurrence of `word`.
pub open spec fn bump(m: Map<Seq<char>, nat>, word: Seq<char>) -> Map<Seq<char>, nat> {
    m.insert(word, if m.contains_key(word) { m[word] + 1 } else { 1 })
}

/// How often each keyword is reported while scanning `text`.
pub open spec fn counts(nodes: Seq<TrieNode>, text: Seq<char>) -> Map<Seq<char>, nat>
    decreases text.len(),
{
    if text.len() == 0 {
        Map::empty()
    } else {
        let before = counts(nodes, text.drop_last());
        if reports_at_end(nodes, text) {
            bump(before, reported_word(nodes, text))
        } else {
            before
        }
    }
}

/// Falling back stays inside the arena and never goes deeper; the path of
/// the node reached is a tail of the path of the node left.
pub proof fn lemma_settle(nodes: Seq<TrieNode>, s: int, c: char)
    requires
        wf_nodes(nodes),
        0 <= s < nodes.len(),
    ensures
        0 <= settle(nodes, s, c) < nodes.len(),
        nodes[settle(nodes, s, c)].depth <= nodes[s].depth,
        is_suffix(nodes[settle(nodes, s, c)].path@, nodes[s].path@),
    decreases nodes[s].depth,
{
    let p = nodes[s].path@;
    assert(p.skip(0) =~= p);
    assert(node_ok(nodes, s));
    if find_edge(nodes[s].children@, c) is None {
        match nodes[s].fail {
            Some(f) => {
                assert(node_ok(nodes, f as int));
                if f < nodes.len() && nodes[f as int].depth < nodes[s].depth {
                    lemma_settle(nodes, f as int, c);
                    let t = settle(nodes, f as int, c);
                    let pf = nodes[f as int].path@;
                    let pt = nodes[t].path@;
                    assert(node_ok(nodes, t));
                    assert(p.skip(p.len() - pt.len()) =~= pf.skip(pf.len() - pt.len())) by {
                        assert(p.skip(p.len() - pf.len()) == pf);
                    }
                }
            },
            None => {},
        }
    }
}

/// Reading a character keeps the state inside the arena; an entered child
/// is one deeper than the node it was entered from, and its path is that
/// node's path with the character appended.
pub proof fn lemma_next_state(nodes: Seq<TrieNode>, s: int, c: char)
    requires
        wf_nodes(nodes),
        0 <= s < nodes.len(),
    ensures
        0 <= next_state(nodes, s, c) < nodes.len(),
        nodes[next_state(nodes, s, c)].depth <= nodes[s].depth + 1,
        target(nodes, s, c) is Some ==> nodes[next_state(nodes, s, c)].depth == nodes[settle(
            nodes,
            s,
            c,
        )].depth + 1,
        target(nodes, s, c) is Some ==> nodes[next_state(nodes, s, c)].path@ == nodes[settle(
            nodes,
            s,
            c,
        )].path@.push(c),
{
    lemma_settle(nodes, s, c);
    let t = settle(nodes, s, c);
    assert(node_ok(nodes, t));
    crate::node::lemma_find_edge_some(nodes[t].children@, c);
    match target(nodes, s, c) {
        Some(j) => {
            let e = choose|e: int| 0 <= e < nodes[t].children@.len() && #[trigger] nodes[t].children@[e] == (c, j);
            assert(edge_ok(nodes, t, e));
            assert(node_ok(nodes, j as int));
        },
        None => {
            assert(node_ok(nodes, 0));
        },
    }
}

/// The state after a text is a node of the arena, no deeper than the text
/// is long, whose path is a tail of the folded text.
pub proof fn lemma_state_after(nodes: Seq<TrieNode>, text: Seq<char>)
    requires
        wf_nodes(nodes),
    ensures
        0 <= state_after(nodes, text) < nodes.len(),
        nodes[state_after(nodes, text)].depth <= text.len(),
        is_suffix(nodes[state_after(nodes, text)].path@, fold_text(text)),
    decreases text.len(),
{
    let ft = fold_text(text);
    assert(node_ok(nodes, 0));
    if text.len() == 0 {
        assert(ft.skip(0) =~= nodes[0].path@);
    } else {
        let prev = text.drop_last();
        let c = fold_char(text.last());
        lemma_state_after(nodes, prev);
        let s = state_after(nodes, prev);
        lemma_settle(nodes, s, c);
        lemma_next_state(nodes, s, c);
        let t = settle(nodes, s, c);
        let n = state_after(nodes, text);
        assert(node_ok(nodes, n));
        let fp = fold_text(prev);
        assert(ft =~= fp.push(c));
        match target(nodes, s, c) {
            Some(j) => {
                let ps = nodes[s].path@;
                let pt = nodes[t].path@;
                assert(fp.skip(fp.len() - ps.len()) == ps);
                assert(ps.skip(ps.len() - pt.len()) == pt);
                assert(fp.skip(fp.len() - pt.len()) =~= pt);
                assert(ft.skip(ft.len() - (pt.len() + 1)) =~= pt.push(c));
            },
            None => {
                assert(ft.skip(ft.len() - 0) =~= nodes[0].path@);
            },
        }
    }
}

} // verus!
