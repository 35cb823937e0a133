//! What holds of every scan, stated over the pattern set of the automaton.

use vstd::prelude::*;
use crate::node::{TrieNode, find_edge, lemma_find_edge_at};
use crate::automaton::{is_prefix, in_use, no_idle_nodes, path_at, is_proper_suffix, wf_nodes, node_ok, patterns_of, fold_char, fold_text, is_suffix, settle, target, state_after, reports_at_end, reported_word, highlight, patch, rewritten, bump, counts, plain_run, patched_cleanly, lemma_next_state, lemma_state_after};
use crate::links::{parent_node, parent_label, lemma_parent, links_compiled, lemma_suffix_pop, lemma_suffix_order, lemma_parent_edge, lemma_link_longest, lemma_settle_longest};
use crate::trie::Trie;
use crate::language::{begins, longest_tail, keyword_at_end, highlighted, occurrences, lemma_tail_from};

verus! {

/// `word` stands somewhere in `text`.
pub open spec fn occurs(word: Seq<char>, text: Seq<char>) -> bool {
    exists|i: int| 0 <= i && i + word.len() <= text.len() && #[trigger] text.subrange(i, i + word.len()) == word
}

/// No pattern of at least one character stands anywhere in the folded text.
pub open spec fn no_pattern_occurs(patterns: Set<Seq<char>>, text: Seq<char>) -> bool {
    forall|w: Seq<char>| #[trigger] patterns.contains(w) && w.len() > 0 ==> !occurs(w, fold_text(text))
}

/// A keyword is reported only where a pattern ends in the folded text.
pub proof fn lemma_report_occurs(nodes: Seq<TrieNode>, text: Seq<char>, k: int)
    requires
        wf_nodes(nodes),
        0 <= k <= text.len(),
        reports_at_end(nodes, text.take(k)),
    ensures
        patterns_of(nodes).contains(nodes[state_after(nodes, text.take(k))].path@),
        nodes[state_after(nodes, text.take(k))].path@.len() > 0,
        occurs(nodes[state_after(nodes, text.take(k))].path@, fold_text(text)),
{
    let prefix = text.take(k);
    let n = state_after(nodes, prefix);
    let w = nodes[n].path@;
    lemma_state_after(nodes, prefix);
    lemma_state_after(nodes, prefix.drop_last());
    lemma_next_state(nodes, state_after(nodes, prefix.drop_last()), fold_char(prefix.last()));
    assert(node_ok(nodes, n));
    assert(nodes[n].is_end_words && nodes[n].path@ == w);
    let ft = fold_text(text);
    let fp = fold_text(prefix);
    assert(fp =~= ft.take(k));
    assert(ft.subrange(k - w.len(), k - w.len() + w.len()) =~= fp.skip(fp.len() - w.len()));
}

/// Where no pattern occurs, every prefix of the text is written out
/// folded and nothing is counted.
pub proof fn lemma_plain(nodes: Seq<TrieNode>, text: Seq<char>, k: int)
    requires
        wf_nodes(nodes),
        no_pattern_occurs(patterns_of(nodes), text),
        0 <= k <= text.len(),
    ensures
        rewritten(nodes, text.take(k)) == fold_text(text.take(k)),
        counts(nodes, text.take(k)) == Map::<Seq<char>, nat>::empty(),
    decreases k,
{
    let prefix = text.take(k);
    if k == 0 {
        assert(fold_text(prefix) =~= Seq::<char>::empty());
    } else {
        lemma_plain(nodes, text, k - 1);
        assert(prefix.drop_last() =~= text.take(k - 1));
        if reports_at_end(nodes, prefix) {
            lemma_report_occurs(nodes, text, k);
        }
        assert(fold_text(prefix) =~= fold_text(text.take(k - 1)).push(fold_char(prefix.last())));
    }
}

/// If no pattern occurs in the folded text, nothing is reported and the
/// rewritten text is the folded text. (The empty pattern is never
/// reported, so it need not be absent.)
pub proof fn law_absent(trie: Trie, text: Seq<char>)
    requires
        trie.wf(),
        no_pattern_occurs(trie@, text),
    ensures
        counts(trie.arena(), text) == Map::<Seq<char>, nat>::empty(),
        rewritten(trie.arena(), text) == fold_text(text),
{
    lemma_plain(trie.arena(), text, text.len() as int);
    assert(text.take(text.len() as int) =~= text);
}

/// With an empty pattern set, nothing is reported in any text and the
/// rewritten text is the folded text.
pub proof fn law_no_patterns(trie: Trie, text: Seq<char>)
    requires
        trie.wf(),
        trie@ == Set::<Seq<char>>::empty(),
    ensures
        counts(trie.arena(), text) == Map::<Seq<char>, nat>::empty(),
        rewritten(trie.arena(), text) == fold_text(text),
{
    law_absent(trie, text);
}

/// In the empty text nothing is reported, and the rewritten text is empty.
pub proof fn law_empty_text(trie: Trie)
    ensures
        counts(trie.arena(), Seq::<char>::empty()) == Map::<Seq<char>, nat>::empty(),
        rewritten(trie.arena(), Seq::<char>::empty()) == Seq::<char>::empty(),
{
}

/// The node at depth `k` on the way from the root to node `t`.
pub open spec fn on_path(nodes: Seq<TrieNode>, t: int, k: int) -> int
    decreases nodes[t].depth,
{
    let pp = parent_node(nodes, t);
    if nodes[t].depth > k && 0 <= pp < nodes.len() && nodes[pp].depth < nodes[t].depth {
        on_path(nodes, pp, k)
    } else {
        t
    }
}

/// The node at depth `k` on the way to `t` carries the first `k`
/// characters of the path of `t`; the root is the only node at depth 0.
pub proof fn lemma_on_path(nodes: Seq<TrieNode>, t: int, k: int)
    requires
        wf_nodes(nodes),
        0 <= t < nodes.len(),
        0 <= k <= nodes[t].depth,
    ensures
        0 <= on_path(nodes, t, k) < nodes.len(),
        nodes[on_path(nodes, t, k)].path@ == nodes[t].path@.take(k),
        k == 0 ==> on_path(nodes, t, k) == 0,
    decreases nodes[t].depth,
{
    assert(node_ok(nodes, t));
    assert(node_ok(nodes, 0));
    if nodes[t].depth > k {
        lemma_parent(nodes, t);
        let pp = parent_node(nodes, t);
        assert(node_ok(nodes, pp));
        lemma_on_path(nodes, pp, k);
        assert(nodes[pp].path@.take(k) =~= nodes[t].path@.take(k));
    } else {
        assert(nodes[t].path@.take(k) =~= nodes[t].path@);
        if k == 0 && t > 0 {
            lemma_parent(nodes, t);
        }
    }
}

/// The node at depth `k` has an edge to the node at depth `k + 1`,
/// labelled with the next character of the path.
pub proof fn lemma_on_path_edge(nodes: Seq<TrieNode>, t: int, k: int)
    requires
        wf_nodes(nodes),
        0 <= t < nodes.len(),
        0 <= k < nodes[t].depth,
    ensures
        find_edge(nodes[on_path(nodes, t, k)].children@, nodes[t].path@[k]) == Some(on_path(nodes, t, k + 1) as usize),
    decreases nodes[t].depth,
{
    assert(node_ok(nodes, t));
    lemma_parent(nodes, t);
    let pp = parent_node(nodes, t);
    assert(node_ok(nodes, pp));
    if nodes[t].depth > k + 1 {
        lemma_on_path_edge(nodes, pp, k);
        assert(nodes[pp].path@[k] == nodes[t].path@[k]);
    } else {
        assert(on_path(nodes, t, k + 1) == t);
        lemma_on_path(nodes, pp, k);
        assert(nodes[pp].path@.take(k) =~= nodes[pp].path@);
        assert(on_path(nodes, pp, k) == pp);
        lemma_find_edge_at(nodes[pp].children@, nodes[t].parent@.1);
        assert(parent_label(nodes, t) == nodes[t].path@[k]);
    }
}

/// Scanning a pattern that holds no upper-case ASCII letter and starts
/// with no other pattern walks down its own path: before its last
/// character nothing is reported and the folded characters are written
/// out as they are.
pub proof fn lemma_walk(nodes: Seq<TrieNode>, t: int, k: int)
    requires
        wf_nodes(nodes),
        0 <= t < nodes.len(),
        0 <= k <= nodes[t].depth,
        fold_text(nodes[t].path@) == nodes[t].path@,
        forall|m: int| 0 < m < nodes[t].depth ==> !#[trigger] patterns_of(nodes).contains(nodes[t].path@.take(m)),
    ensures
        state_after(nodes, nodes[t].path@.take(k)) == on_path(nodes, t, k),
        k > 0 ==> target(nodes, on_path(nodes, t, k - 1), nodes[t].path@[k - 1]) is Some,
        k < nodes[t].depth ==> rewritten(nodes, nodes[t].path@.take(k)) == nodes[t].path@.take(k),
        k < nodes[t].depth ==> counts(nodes, nodes[t].path@.take(k)) == Map::<Seq<char>, nat>::empty(),
    decreases k,
{
    let p = nodes[t].path@;
    let prefix = p.take(k);
    assert(node_ok(nodes, t));
    lemma_on_path(nodes, t, k);
    if k > 0 {
        lemma_walk(nodes, t, k - 1);
        lemma_on_path(nodes, t, k - 1);
        lemma_on_path_edge(nodes, t, k - 1);
        assert(prefix.drop_last() =~= p.take(k - 1));
        let c = p[k - 1];
        assert(prefix.last() == c);
        assert(fold_text(p)[k - 1] == fold_char(p[k - 1]));
        let s = on_path(nodes, t, k - 1);
        assert(settle(nodes, s, c) == s);
        assert(state_after(nodes, prefix) == on_path(nodes, t, k));
        if k < nodes[t].depth {
            let n = on_path(nodes, t, k);
            if nodes[n].is_end_words {
                assert(nodes[n].is_end_words && nodes[n].path@ == p.take(k));
                assert(patterns_of(nodes).contains(p.take(k)));
            }
            assert(!reports_at_end(nodes, prefix));
            assert(prefix =~= p.take(k - 1).push(c));
        }
    } else {
        assert(prefix =~= Seq::<char>::empty());
    }
}

/// Scanning a text equal to a pattern reports that pattern once and
/// nothing else, and rewrites the text to the highlighted pattern. The
/// pattern holds at least one character and no upper-case ASCII letter,
/// and no other pattern is a beginning of it.
pub proof fn law_pattern_alone(trie: Trie, p: Seq<char>)
    requires
        trie.wf(),
        trie@.contains(p),
        p.len() > 0,
        fold_text(p) == p,
        forall|m: int| 0 < m < p.len() ==> !#[trigger] trie@.contains(p.take(m)),
    ensures
        counts(trie.arena(), p) == Map::<Seq<char>, nat>::empty().insert(p, 1),
        rewritten(trie.arena(), p) == highlight(p),
{
    let nodes = trie.arena();
    let t = choose|t: int| 0 <= t < nodes.len() && #[trigger] nodes[t].is_end_words && nodes[t].path@ == p;
    assert(node_ok(nodes, t));
    let len = p.len() as int;
    lemma_walk(nodes, t, len);
    lemma_walk(nodes, t, len - 1);
    assert(p.take(len) =~= p);
    assert(p.drop_last() =~= p.take(len - 1));
    assert(on_path(nodes, t, len) == t);
    assert(fold_text(p)[len - 1] == fold_char(p[len - 1]));
    assert(reports_at_end(nodes, p));
    assert(p.skip(len - nodes[t].depth) =~= p);
    assert(reported_word(nodes, p) == p);
    assert(patch(p.take(len - 1), p) =~= highlight(p));
    assert(bump(Map::<Seq<char>, nat>::empty(), p) =~= Map::<Seq<char>, nat>::empty().insert(p, 1));
}

/// With compiled links, the state after a text is the deepest node whose
/// path is a tail of the folded text: no node whose path ends the folded
/// text is deeper.
pub proof fn lemma_state_longest(nodes: Seq<TrieNode>, text: Seq<char>, i: int)
    requires
        wf_nodes(nodes),
        links_compiled(nodes),
        0 <= i < nodes.len(),
        is_suffix(nodes[i].path@, fold_text(text)),
    ensures
        nodes[i].depth <= nodes[state_after(nodes, text)].depth,
    decreases text.len(),
{
    assert(node_ok(nodes, i));
    assert(node_ok(nodes, 0));
    if nodes[i].depth > 0 {
        lemma_parent(nodes, i);
        let pi = parent_node(nodes, i);
        let ci = parent_label(nodes, i);
        assert(node_ok(nodes, pi));
        let prev = text.drop_last();
        let c = fold_char(text.last());
        assert(fold_text(text) =~= fold_text(prev).push(c));
        lemma_suffix_pop(nodes[pi].path@, ci, fold_text(prev), c);
        lemma_state_longest(nodes, prev, pi);
        lemma_state_after(nodes, prev);
        let s = state_after(nodes, prev);
        assert(node_ok(nodes, s));
        lemma_suffix_order(nodes[pi].path@, nodes[s].path@, fold_text(prev));
        lemma_parent_edge(nodes, i);
        lemma_settle_longest(nodes, s, c, pi);
        lemma_next_state(nodes, s, c);
    }
}

/// Once the links are compiled, each node but the root falls back to the
/// node of the longest proper tail of its path that is a path of the trie.
pub proof fn law_link_is_longest_tail(trie: Trie, j: int, i: int)
    requires
        trie.wf(),
        links_compiled(trie.arena()),
        0 < j < trie.arena().len(),
        0 <= i < trie.arena().len(),
        is_proper_suffix(trie.arena()[i].path@, trie.arena()[j].path@),
    ensures
        trie.arena()[j].fail is Some,
        trie.arena()[j].fail->0 < trie.arena().len(),
        is_proper_suffix(trie.arena()[trie.arena()[j].fail->0 as int].path@, trie.arena()[j].path@),
        trie.arena()[i].path@.len() <= trie.arena()[trie.arena()[j].fail->0 as int].path@.len(),
{
    let nodes = trie.arena();
    assert(node_ok(nodes, j));
    assert(node_ok(nodes, i));
    assert(node_ok(nodes, nodes[j].fail->0 as int));
    lemma_link_longest(nodes, j, i);
}

/// Once the links are compiled, the state after a text is the node of the
/// longest tail of the folded text that is a path of the trie.
pub proof fn law_state_is_longest_tail(trie: Trie, text: Seq<char>, i: int)
    requires
        trie.wf(),
        links_compiled(trie.arena()),
        0 <= i < trie.arena().len(),
        is_suffix(trie.arena()[i].path@, fold_text(text)),
    ensures
        0 <= state_after(trie.arena(), text) < trie.arena().len(),
        is_suffix(trie.arena()[state_after(trie.arena(), text)].path@, fold_text(text)),
        trie.arena()[i].path@.len() <= trie.arena()[state_after(trie.arena(), text)].path@.len(),
{
    let nodes = trie.arena();
    lemma_state_after(nodes, text);
    lemma_state_longest(nodes, text, i);
    assert(node_ok(nodes, i));
    assert(node_ok(nodes, state_after(nodes, text)));
}

/// The characters written after the last highlight are the last folded
/// characters of the text.
pub proof fn lemma_plain_tail(nodes: Seq<TrieNode>, text: Seq<char>)
    ensures
        plain_run(nodes, text) <= text.len(),
        plain_run(nodes, text) <= rewritten(nodes, text).len(),
        rewritten(nodes, text).skip(rewritten(nodes, text).len() - plain_run(nodes, text)) == fold_text(text).skip(
            text.len() - plain_run(nodes, text),
        ),
    decreases text.len(),
{
    let out = rewritten(nodes, text);
    let ft = fold_text(text);
    let run = plain_run(nodes, text) as int;
    if text.len() == 0 || reports_at_end(nodes, text) {
        assert(out.skip(out.len() - 0) =~= ft.skip(text.len() - 0));
    } else {
        let prev = text.drop_last();
        let c = fold_char(text.last());
        lemma_plain_tail(nodes, prev);
        let before = rewritten(nodes, prev);
        let fp = fold_text(prev);
        assert(ft =~= fp.push(c));
        assert(out.skip(out.len() - run) =~= before.skip(before.len() - (run - 1)).push(c));
        assert(ft.skip(ft.len() - run) =~= fp.skip(fp.len() - (run - 1)).push(c));
    }
}

/// Where the text was patched cleanly up to a reported keyword, the
/// highlight of that keyword takes the place of exactly the characters of
/// the keyword written before it: all but the last, as plain text.
pub proof fn law_clean_highlight(trie: Trie, text: Seq<char>)
    requires
        trie.wf(),
        patched_cleanly(trie.arena(), text),
        reports_at_end(trie.arena(), text),
    ensures
        reported_word(trie.arena(), text).len() >= 1,
        reported_word(trie.arena(), text).len() - 1 <= rewritten(trie.arena(), text.drop_last()).len(),
        rewritten(trie.arena(), text.drop_last()).skip(
            rewritten(trie.arena(), text.drop_last()).len() - (reported_word(trie.arena(), text).len() - 1),
        ) == reported_word(trie.arena(), text).drop_last(),
        rewritten(trie.arena(), text) == rewritten(trie.arena(), text.drop_last()).take(
            rewritten(trie.arena(), text.drop_last()).len() - (reported_word(trie.arena(), text).len() - 1),
        ) + highlight(reported_word(trie.arena(), text)),
{
    let nodes = trie.arena();
    let prev = text.drop_last();
    let c = fold_char(text.last());
    let w = reported_word(nodes, text);
    let before = rewritten(nodes, prev);
    let fp = fold_text(prev);
    let ft = fold_text(text);
    lemma_state_after(nodes, text);
    lemma_state_after(nodes, prev);
    lemma_next_state(nodes, state_after(nodes, prev), c);
    lemma_plain_tail(nodes, prev);
    let run = plain_run(nodes, prev) as int;
    let back = w.len() - 1;
    assert(ft =~= fp.push(c));
    assert(w =~= ft.skip(ft.len() - w.len()));
    assert(w.drop_last() =~= fp.skip(fp.len() - back));
    assert(before.skip(before.len() - back) =~= before.skip(before.len() - run).skip(run - back));
    assert(fp.skip(fp.len() - back) =~= fp.skip(fp.len() - run).skip(run - back));
}

/// Two texts that fold to the same text lead to the same state.
pub proof fn lemma_same_fold_state(nodes: Seq<TrieNode>, a: Seq<char>, b: Seq<char>)
    requires
        fold_text(a) == fold_text(b),
    ensures
        state_after(nodes, a) == state_after(nodes, b),
    decreases a.len(),
{
    assert(a.len() == fold_text(a).len());
    assert(b.len() == fold_text(b).len());
    if a.len() > 0 {
        assert(fold_text(a.drop_last()) =~= fold_text(a).drop_last());
        assert(fold_text(b.drop_last()) =~= fold_text(b).drop_last());
        assert(fold_text(a).last() == fold_char(a.last()));
        assert(fold_text(b).last() == fold_char(b.last()));
        lemma_same_fold_state(nodes, a.drop_last(), b.drop_last());
    }
}

/// Two texts that fold to the same text are scanned alike.
pub proof fn lemma_same_fold(nodes: Seq<TrieNode>, a: Seq<char>, b: Seq<char>)
    requires
        wf_nodes(nodes),
        fold_text(a) == fold_text(b),
    ensures
        rewritten(nodes, a) == rewritten(nodes, b),
        counts(nodes, a) == counts(nodes, b),
    decreases a.len(),
{
    assert(a.len() == fold_text(a).len());
    assert(b.len() == fold_text(b).len());
    if a.len() > 0 {
        assert(fold_text(a.drop_last()) =~= fold_text(a).drop_last());
        assert(fold_text(b.drop_last()) =~= fold_text(b).drop_last());
        assert(fold_text(a).last() == fold_char(a.last()));
        assert(fold_text(b).last() == fold_char(b.last()));
        lemma_same_fold(nodes, a.drop_last(), b.drop_last());
        lemma_same_fold_state(nodes, a, b);
        lemma_same_fold_state(nodes, a.drop_last(), b.drop_last());
        lemma_state_after(nodes, a);
        let d = nodes[state_after(nodes, a)].depth as int;
        assert(fold_text(a.skip(a.len() - d)) =~= fold_text(a).skip(a.len() - d));
        assert(fold_text(b.skip(b.len() - d)) =~= fold_text(b).skip(b.len() - d));
    }
}

/// Only the folded text matters: two texts that differ at most in the
/// case of ASCII letters give the same counts and the same rewritten
/// text. A pattern in lower case is therefore found however the text
/// spells it.
pub proof fn law_case_of_text(trie: Trie, a: Seq<char>, b: Seq<char>)
    requires
        trie.wf(),
        fold_text(a) == fold_text(b),
    ensures
        rewritten(trie.arena(), a) == rewritten(trie.arena(), b),
        counts(trie.arena(), a) == counts(trie.arena(), b),
{
    lemma_same_fold(trie.arena(), a, b);
}

/// A sequence that is empty or begins a pattern is the path of a node.
pub proof fn lemma_begins_in_trie(nodes: Seq<TrieNode>, w: Seq<char>) -> (i: int)
    requires
        wf_nodes(nodes),
        begins(patterns_of(nodes), w),
    ensures
        0 <= i < nodes.len(),
        nodes[i].path@ == w,
{
    assert(node_ok(nodes, 0));
    if w.len() == 0 {
        assert(nodes[0].path@ =~= w);
        0
    } else {
        let p = choose|p: Seq<char>| #[trigger] patterns_of(nodes).contains(p) && is_prefix(w, p);
        let t = choose|t: int| 0 <= t < nodes.len() && #[trigger] nodes[t].is_end_words && nodes[t].path@ == p;
        assert(node_ok(nodes, t));
        lemma_on_path(nodes, t, w.len() as int);
        on_path(nodes, t, w.len() as int)
    }
}

/// Where no node is idle, the path of every node is empty or begins a
/// pattern.
pub proof fn lemma_in_trie_begins(nodes: Seq<TrieNode>, i: int)
    requires
        wf_nodes(nodes),
        no_idle_nodes(nodes),
        0 <= i < nodes.len(),
    ensures
        begins(patterns_of(nodes), nodes[i].path@),
{
    assert(node_ok(nodes, 0));
    if i > 0 {
        assert(in_use(nodes, i));
        let t = choose|t: int| 0 <= t < nodes.len() && nodes[t].is_end_words && is_prefix(path_at(nodes, i), #[trigger] path_at(nodes, t));
        assert(nodes[t].is_end_words && nodes[t].path@ == path_at(nodes, t));
        assert(patterns_of(nodes).contains(path_at(nodes, t)));
    }
}

/// A node is terminal exactly if its path is a pattern.
pub proof fn lemma_terminal(nodes: Seq<TrieNode>, n: int)
    requires
        wf_nodes(nodes),
        0 <= n < nodes.len(),
    ensures
        nodes[n].is_end_words <==> patterns_of(nodes).contains(nodes[n].path@),
{
    if nodes[n].is_end_words {
        assert(nodes[n].is_end_words && nodes[n].path@ == nodes[n].path@);
    }
    if patterns_of(nodes).contains(nodes[n].path@) {
        let t = choose|t: int| 0 <= t < nodes.len() && #[trigger] nodes[t].is_end_words && nodes[t].path@ == nodes[n].path@;
        if t < n {
            assert(path_at(nodes, t) != path_at(nodes, n));
        } else if n < t {
            assert(path_at(nodes, n) != path_at(nodes, t));
        }
    }
}

/// In a ready automaton the state after a text is the node whose path is
/// the longest tail of the folded text that begins a pattern.
pub proof fn lemma_state_by_patterns(nodes: Seq<TrieNode>, text: Seq<char>)
    requires
        wf_nodes(nodes),
        no_idle_nodes(nodes),
        links_compiled(nodes),
    ensures
        0 <= state_after(nodes, text) < nodes.len(),
        nodes[state_after(nodes, text)].path@ == longest_tail(patterns_of(nodes), fold_text(text)),
{
    let pats = patterns_of(nodes);
    let t = fold_text(text);
    let n = state_after(nodes, text);
    lemma_state_after(nodes, text);
    let s = nodes[n].path@;
    lemma_in_trie_begins(nodes, n);
    assert(t.skip(t.len() - s.len()) == s);
    lemma_tail_from(pats, t, 0, t.len() - s.len());
    let r = longest_tail(pats, t);
    let i = lemma_begins_in_trie(nodes, r);
    lemma_state_longest(nodes, text, i);
    assert(node_ok(nodes, i));
    assert(node_ok(nodes, n));
    assert(r.len() == s.len());
    assert(r =~= s);
}

/// In a ready automaton a keyword is reported exactly where the pattern
/// set says so, and it is the keyword that the pattern set names.
pub proof fn lemma_report_by_patterns(nodes: Seq<TrieNode>, text: Seq<char>)
    requires
        wf_nodes(nodes),
        no_idle_nodes(nodes),
        links_compiled(nodes),
    ensures
        reports_at_end(nodes, text) <==> keyword_at_end(patterns_of(nodes), text) is Some,
        reports_at_end(nodes, text) ==> keyword_at_end(patterns_of(nodes), text) == Some(reported_word(nodes, text)),
{
    let pats = patterns_of(nodes);
    let n = state_after(nodes, text);
    lemma_state_by_patterns(nodes, text);
    lemma_state_after(nodes, text);
    lemma_terminal(nodes, n);
    assert(node_ok(nodes, n));
    assert(node_ok(nodes, 0));
    let w = nodes[n].path@;
    if text.len() > 0 {
        let prev = text.drop_last();
        let c = fold_char(text.last());
        lemma_state_after(nodes, prev);
        lemma_next_state(nodes, state_after(nodes, prev), c);
        let ft = fold_text(text);
        assert(fold_text(text.skip(text.len() - nodes[n].depth)) =~= ft.skip(ft.len() - w.len()));
    } else {
        assert(n == 0);
    }
}

/// In a ready automaton the counts and the rewritten text depend on the
/// pattern set and the text alone.
pub proof fn lemma_scan_by_patterns(nodes: Seq<TrieNode>, text: Seq<char>)
    requires
        wf_nodes(nodes),
        no_idle_nodes(nodes),
        links_compiled(nodes),
    ensures
        rewritten(nodes, text) == highlighted(patterns_of(nodes), text),
        counts(nodes, text) == occurrences(patterns_of(nodes), text),
    decreases text.len(),
{
    if text.len() > 0 {
        lemma_scan_by_patterns(nodes, text.drop_last());
        lemma_report_by_patterns(nodes, text);
    }
}

/// The result of scanning with a ready automaton is a function of its
/// pattern set and the text: two automata with the same patterns, however
/// they were built, give the same counts and the same rewritten text.
pub proof fn law_scan_by_patterns(trie: Trie, text: Seq<char>)
    requires
        trie.ready(),
    ensures
        rewritten(trie.arena(), text) == highlighted(trie@, text),
        counts(trie.arena(), text) == occurrences(trie@, text),
{
    lemma_scan_by_patterns(trie.arena(), text);
}

} // verus!
