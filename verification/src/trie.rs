//! The pattern store: an arena of trie nodes, filled pattern by pattern.

use vstd::prelude::*;
use crate::node::{TrieNode, find_edge, distinct_labels, lemma_find_edge_some};
use crate::scan::{chars_of, fold, folded_slice, write_highlight, record, finish, entries_of};
use crate::result::{MatchResult, keys_distinct, tally};
use crate::language::{highlighted, occurrences};
use crate::store::{extends, lemma_extends_self, lemma_extends_grow, lemma_extends_mark, lemma_grow, lemma_mark, lemma_same_patterns, lemma_skeleton_trans, in_use_or_above, lemma_prefix_push, lemma_grow_in_use, lemma_mark_in_use, lemma_same_use};
use crate::laws::law_scan_by_patterns;
use crate::links::{same_skeleton, relinked, links_compiled, link_compiled, expected_fail, current, bfs_inv, lemma_parent, lemma_expected_fail, lemma_bfs_start, lemma_bfs_push, lemma_bfs_advance, lemma_bfs_reached, lemma_queue_bound};
use crate::automaton::{in_use, no_idle_nodes, path_at, wf_nodes, node_ok, edge_ok, patterns_of, settle, target, state_after, reports_at_end, reported_word, rewritten, counts, plain_run, patched_cleanly, lemma_next_state, lemma_state_after};

verus! {

/// The automaton: all nodes, the root at index 0.
pub struct Trie {
    pub(crate) nodes: Vec<TrieNode>,
}

impl View for Trie {
    type V = Set<Seq<char>>;

    /// The set of patterns inserted so far.
    open spec fn view(&self) -> Set<Seq<char>> {
        patterns_of(self.arena())
    }
}

impl Trie {
    /// The nodes of the arena.
    pub closed spec fn arena(&self) -> Seq<TrieNode> {
        self.nodes@
    }

    /// The arena is a well-formed trie.
    pub open spec fn wf(&self) -> bool {
        wf_nodes(self.arena())
    }

    /// The automaton is ready to scan: it is well formed, every node lies
    /// on the way to a pattern, and the failure links are compiled.
    pub open spec fn ready(&self) -> bool {
        &&& self.wf()
        &&& no_idle_nodes(self.arena())
        &&& links_compiled(self.arena())
    }

    /// The automaton holds no node that no pattern needs.
    pub open spec fn lean(&self) -> bool {
        no_idle_nodes(self.arena())
    }

    /// An automaton without patterns: the root alone.
    pub fn new() -> (trie: Trie)
        ensures
            trie.wf(),
            trie@ == Set::<Seq<char>>::empty(),
            trie.arena().len() == 1,
            trie.ready(),
    {
        let mut nodes: Vec<TrieNode> = Vec::new();
        nodes.push(TrieNode::new(0));
        let trie = Trie { nodes };
        proof {
            assert(distinct_labels(trie.nodes@[0].children@));
            assert(node_ok(trie.nodes@, 0));
            assert(trie@ =~= Set::<Seq<char>>::empty());
        }
        trie
    }

    /// The root of the trie.
    pub fn root(&self) -> (node: &TrieNode)
        requires
            self.wf(),
        ensures
            *node == self.arena()[0],
    {
        &self.nodes[0]
    }

    /// The node with the given index, if the arena has one.
    pub fn node(&self, id: usize) -> (node: Option<&TrieNode>)
        ensures
            node is Some <==> id < self.arena().len(),
            node is Some ==> *node->0 == self.arena()[id as int],
    {
        if id < self.nodes.len() {
            Some(&self.nodes[id])
        } else {
            None
        }
    }

    /// The number of nodes, the root included.
    pub fn node_count(&self) -> (n: usize)
        ensures
            n == self.arena().len(),
    {
        self.nodes.len()
    }

    /// Inserts one pattern, character by character as given, and marks the
    /// node where it ends as terminal.
    pub fn insert(&mut self, word: String)
        requires
            old(self).wf(),
        ensures
            final(self).wf(),
            final(self)@ == old(self)@.insert(word@),
            old(self).lean() ==> final(self).lean(),
            extends(old(self).arena(), final(self).arena()),
            final(self).arena().len() <= old(self).arena().len() + word@.len(),
    {
        let chars = chars_of(word.as_str());
        let n: usize = chars.len();
        let mut cur: usize = 0;
        let mut k: usize = 0;
        proof {
            lemma_extends_self(self.nodes@);
            assert(node_ok(self.nodes@, 0));
            assert(self.nodes@[0].path@ =~= chars@.take(0));
        }
        while k < n
            invariant
                n == chars@.len(),
                k <= n,
                wf_nodes(self.nodes@),
                cur < self.nodes@.len(),
                self.nodes@[cur as int].path@ == chars@.take(k as int),
                patterns_of(self.nodes@) == patterns_of(old(self).nodes@),
                extends(old(self).nodes@, self.nodes@),
                self.nodes@.len() <= old(self).nodes@.len() + k,
                no_idle_nodes(old(self).nodes@) ==> forall|i: int|
                    0 < i < self.nodes@.len() ==> #[trigger] in_use_or_above(self.nodes@, i, cur as int),
            decreases n - k,
        {
            let c = chars[k];
            let ghost before = self.nodes@;
            proof {
                assert(node_ok(before, cur as int));
                assert(chars@.take(k as int).push(c) =~= chars@.take(k + 1));
                lemma_find_edge_some(before[cur as int].children@, c);
            }
            match self.nodes[cur].get_child(&c) {
                Some(j) => {
                    proof {
                        let e = choose|e: int| 0 <= e < before[cur as int].children@.len() && #[trigger] before[cur as int].children@[e] == (c, j);
                        assert(edge_ok(before, cur as int, e));
                        if no_idle_nodes(old(self).nodes@) {
                            assert forall|i: int| 0 < i < before.len() implies #[trigger] in_use_or_above(before, i, j as int) by {
                                assert(in_use_or_above(before, i, cur as int));
                                if !in_use(before, i) {
                                    lemma_prefix_push(path_at(before, i), path_at(before, cur as int), c);
                                }
                            }
                        }
                    }
                    cur = j;
                },
                None => {
                    let d: usize = self.nodes[cur].depth;
                    let fresh: usize = self.nodes.len();
                    let ghost slot = before[cur as int].children@.len() as int;
                    let mut node = TrieNode::new(d + 1);
                    node.fail = Some(0);
                    node.path = Ghost(before[cur as int].path@.push(c));
                    node.parent = Ghost((cur as int, slot));
                    self.nodes.push(node);
                    self.nodes[cur].children.push((c, fresh));
                    let total: usize = self.nodes.len();
                    proof {
                        let after = self.nodes@;
                        assert(after.len() == before.len() + 1);
                        assert(after[cur as int].children@ == before[cur as int].children@.push((c, fresh)));
                        lemma_grow(before, after, cur as int, c);
                        lemma_extends_grow(old(self).nodes@, before, after, cur as int, c);
                        if no_idle_nodes(old(self).nodes@) {
                            assert forall|i: int| 0 < i < after.len() implies #[trigger] in_use_or_above(after, i, fresh as int) by {
                                if i < fresh {
                                    assert(in_use_or_above(before, i, cur as int));
                                }
                                lemma_grow_in_use(before, after, cur as int, c, i);
                            }
                        }
                    }
                    cur = fresh;
                },
            }
            k = k + 1;
        }
        let ghost before = self.nodes@;
        self.nodes[cur].is_end_words = true;
        proof {
            assert(chars@.take(n as int) =~= chars@);
            lemma_mark(before, self.nodes@, cur as int);
            lemma_extends_mark(old(self).nodes@, before, self.nodes@, cur as int);
            if no_idle_nodes(old(self).nodes@) {
                assert forall|i: int| 0 < i < self.nodes@.len() implies #[trigger] in_use(self.nodes@, i) by {
                    assert(in_use_or_above(before, i, cur as int));
                    lemma_mark_in_use(before, self.nodes@, cur as int, i);
                }
            }
        }
    }

    /// Inserts all patterns, in order, then compiles the failure links.
    pub fn build(&mut self, words: Vec<String>)
        requires
            old(self).wf(),
        ensures
            final(self).wf(),
            links_compiled(final(self).arena()),
            old(self).lean() ==> final(self).ready(),
            forall|w: Seq<char>| #[trigger]
                final(self)@.contains(w) <==> old(self)@.contains(w) || exists|k: int|
                    0 <= k < words@.len() && (#[trigger] words@[k])@ == w,
    {
        let n: usize = words.len();
        let mut k: usize = 0;
        while k < n
            invariant
                n == words@.len(),
                k <= n,
                wf_nodes(self.nodes@),
                no_idle_nodes(old(self).nodes@) ==> no_idle_nodes(self.nodes@),
                forall|w: Seq<char>| #[trigger]
                    patterns_of(self.nodes@).contains(w) <==> patterns_of(old(self).nodes@).contains(w)
                        || exists|j: int| 0 <= j < k && (#[trigger] words@[j])@ == w,
            decreases n - k,
        {
            let ghost before = patterns_of(self.nodes@);
            let word = words[k].clone();
            self.insert(word);
            proof {
                assert forall|w: Seq<char>| #[trigger]
                    patterns_of(self.nodes@).contains(w) <==> patterns_of(old(self).nodes@).contains(w)
                        || exists|j: int| 0 <= j < k + 1 && (#[trigger] words@[j])@ == w by {
                    if before.contains(w) && !patterns_of(old(self).nodes@).contains(w) {
                        let j = choose|j: int| 0 <= j < k && (#[trigger] words@[j])@ == w;
                        assert(0 <= j < k + 1 && words@[j]@ == w);
                    }
                    if w == words@[k as int]@ {
                        assert(0 <= k < k + 1 && words@[k as int]@ == w);
                    }
                    if exists|j: int| 0 <= j < k + 1 && (#[trigger] words@[j])@ == w {
                        let j = choose|j: int| 0 <= j < k + 1 && (#[trigger] words@[j])@ == w;
                        if j < k {
                            assert(before.contains(w));
                        }
                    }
                }
            }
            k = k + 1;
        }
        let ghost filled = self.nodes@;
        self.build_fail_point();
        proof {
            lemma_same_patterns(filled, self.nodes@);
            if no_idle_nodes(filled) {
                lemma_same_use(filled, self.nodes@);
            }
        }
    }

    /// The child entered from `state` on the folded character `c`, after
    /// falling back along failure links as far as needed; `None` if not
    /// even the root has an edge on `c`.
    pub fn enter(&self, state: usize, c: char) -> (child: Option<usize>)
        requires
            self.wf(),
            state < self.arena().len(),
        ensures
            child == target(self.arena(), state as int, c),
            child is Some ==> child->0 < self.arena().len(),
    {
        let mut cur: usize = state;
        let mut child = self.nodes[cur].get_child(&c);
        let mut link = self.nodes[cur].get_fail();
        while child.is_none() && link.is_some()
            invariant
                wf_nodes(self.nodes@),
                cur < self.nodes@.len(),
                child == find_edge(self.nodes@[cur as int].children@, c),
                link == self.nodes@[cur as int].fail,
                settle(self.nodes@, state as int, c) == settle(self.nodes@, cur as int, c),
            decreases self.nodes@[cur as int].depth,
        {
            proof {
                assert(node_ok(self.nodes@, cur as int));
                assert(node_ok(self.nodes@, link->0 as int));
            }
            cur = link.unwrap();
            child = self.nodes[cur].get_child(&c);
            link = self.nodes[cur].get_fail();
        }
        proof {
            assert(node_ok(self.nodes@, cur as int));
            assert(settle(self.nodes@, cur as int, c) == cur);
            lemma_next_state(self.nodes@, state as int, c);
        }
        child
    }

    /// Compiles the failure links in one breadth-first pass: the children
    /// of the root fall back to the root; every other node falls back to
    /// the state that its parent's link reaches on the character leading
    /// to the node, and to the root if that character leads nowhere.
    pub fn build_fail_point(&mut self)
        requires
            old(self).wf(),
        ensures
            final(self).wf(),
            same_skeleton(old(self).arena(), final(self).arena()),
            links_compiled(final(self).arena()),
            final(self)@ == old(self)@,
            old(self).lean() ==> final(self).ready(),
    {
        let total: usize = self.nodes.len();
        let mut queue: Vec<usize> = Vec::new();
        let ghost mut pos: Seq<int> = Seq::new(total as nat, |j: int| -1int);
        let mut head: usize = 0;
        let mut at_root: bool = true;
        proof {
            lemma_bfs_start(self.nodes@);
            assert(same_skeleton(self.nodes@, self.nodes@));
        }
        while at_root || head < queue.len()
            invariant
                total == self.nodes@.len(),
                same_skeleton(old(self).nodes@, self.nodes@),
                at_root ==> head == 0,
                bfs_inv(self.nodes@, queue@, pos, if at_root { -1 } else { head as int }, 0),
            decreases (if at_root { 1int } else { 0int }) + total - head,
        {
            let ghost h: int = if at_root { -1 } else { head as int };
            proof {
                lemma_queue_bound(self.nodes@, queue@, pos, h, 0);
                if !at_root {
                    assert(0 < queue@[head as int] < self.nodes@.len());
                }
            }
            let p: usize = if at_root { 0 } else { queue[head] };
            let edges: usize = self.nodes[p].children.len();
            let mut e: usize = 0;
            while e < edges
                invariant
                    total == self.nodes@.len(),
                    same_skeleton(old(self).nodes@, self.nodes@),
                    h == (if at_root { -1 } else { head as int }),
                    h < queue@.len(),
                    p == current(queue@, h),
                    p < total,
                    edges == self.nodes@[p as int].children@.len(),
                    e <= edges,
                    bfs_inv(self.nodes@, queue@, pos, h, e as int),
                decreases edges - e,
            {
                let ghost before = self.nodes@;
                let ghost waiting = queue@;
                let edge = self.nodes[p].children[e];
                let c: char = edge.0;
                let t: usize = edge.1;
                proof {
                    assert(node_ok(before, p as int));
                    assert(edge_ok(before, p as int, e as int));
                    assert(node_ok(before, 0));
                    lemma_parent(before, t as int);
                    lemma_expected_fail(before, t as int);
                }
                let v: usize = if at_root {
                    0
                } else {
                    let f: usize = self.nodes[p].get_fail().unwrap();
                    match self.enter(f, c) {
                        Some(x) => x,
                        None => 0,
                    }
                };
                self.nodes[t].fail = Some(v);
                queue.push(t);
                proof {
                    assert(relinked(before, self.nodes@, t as int, expected_fail(before, t as int)));
                    lemma_bfs_push(before, self.nodes@, waiting, pos, h, e as int, t as int);
                    pos = pos.update(t as int, queue@.len() - 1);
                    lemma_skeleton_trans(old(self).nodes@, before, self.nodes@);
                }
                e = e + 1;
            }
            proof {
                lemma_bfs_advance(self.nodes@, queue@, pos, h, e as int);
            }
            if at_root {
                at_root = false;
            } else {
                head = head + 1;
            }
        }
        proof {
            assert forall|j: int| 0 < j < self.nodes@.len() implies #[trigger] link_compiled(self.nodes@, j) by {
                lemma_bfs_reached(self.nodes@, queue@, pos, j);
            }
            lemma_same_patterns(old(self).nodes@, self.nodes@);
            if no_idle_nodes(old(self).nodes@) {
                lemma_same_use(old(self).nodes@, self.nodes@);
            }
        }
    }

    /// Scans `text` once from left to right. Every character is folded
    /// (ASCII letters to lower case) before it is looked up; whenever a
    /// terminal node is entered, the keyword that ends there is counted and
    /// highlighted in the output. Only the node entered is tested, so a
    /// shorter keyword that ends at the same place as a longer path is not
    /// reported on its own.
    pub fn search_replace(&self, text: &String) -> (result: MatchResult)
        requires
            self.wf(),
        ensures
            result.wf(),
            result.modified_html@ == rewritten(self.arena(), text@),
            result.matches() == counts(self.arena(), text@),
            self.ready() ==> result.modified_html@ == highlighted(self@, text@),
            self.ready() ==> result.matches() == occurrences(self@, text@),
    {
        self.search_replace_validated(text).0
    }

    /// Scans `text` as `search_replace` does, and tells besides whether
    /// every highlight took the place of characters of its own keyword
    /// only. Where it did not, reported keywords overlap and the rewritten
    /// text holds damaged highlights.
    pub fn search_replace_validated(&self, text: &String) -> (outcome: (MatchResult, bool))
        requires
            self.wf(),
        ensures
            outcome.0.wf(),
            outcome.0.modified_html@ == rewritten(self.arena(), text@),
            outcome.0.matches() == counts(self.arena(), text@),
            self.ready() ==> outcome.0.modified_html@ == highlighted(self@, text@),
            self.ready() ==> outcome.0.matches() == occurrences(self@, text@),
            outcome.1 == patched_cleanly(self.arena(), text@),
    {
        let chars = chars_of(text.as_str());
        let n: usize = chars.len();
        let mut state: usize = 0;
        let mut out: Vec<char> = Vec::new();
        let mut table: Vec<(Vec<char>, usize)> = Vec::new();
        let mut plain: usize = 0;
        let mut clean: bool = true;
        let mut i: usize = 0;
        proof {
            assert(tally(entries_of(table@)) =~= counts(self.nodes@, chars@.take(0)));
        }
        while i < n
            invariant
                wf_nodes(self.nodes@),
                n == chars@.len(),
                chars@ == text@,
                i <= n,
                state == state_after(self.nodes@, chars@.take(i as int)),
                out@ == rewritten(self.nodes@, chars@.take(i as int)),
                keys_distinct(entries_of(table@)),
                tally(entries_of(table@)) == counts(self.nodes@, chars@.take(i as int)),
                forall|k: int| 0 <= k < table@.len() ==> 1 <= (#[trigger] table@[k]).1 <= i,
                plain <= i,
                plain == plain_run(self.nodes@, chars@.take(i as int)),
                clean == patched_cleanly(self.nodes@, chars@.take(i as int)),
            decreases n - i,
        {
            let c = fold(chars[i]);
            let ghost seen = chars@.take(i as int);
            let ghost now = chars@.take(i + 1);
            proof {
                assert(now.drop_last() =~= seen);
                assert(now.last() == chars@[i as int]);
                lemma_state_after(self.nodes@, seen);
                lemma_state_after(self.nodes@, now);
                lemma_next_state(self.nodes@, state as int, c);
            }
            let child = self.enter(state, c);
            match child {
                Some(j) => {
                    state = j;
                    if self.nodes[j].is_end_words {
                        let word_len: usize = self.nodes[j].depth;
                        let word = folded_slice(&chars, i + 1 - word_len, i + 1);
                        proof {
                            assert(now.skip(now.len() - word_len) =~= chars@.subrange(i + 1 - word_len, i + 1));
                            assert(word@ == reported_word(self.nodes@, now));
                            assert(reports_at_end(self.nodes@, now));
                        }
                        if word_len - 1 > plain {
                            clean = false;
                        }
                        plain = 0;
                        write_highlight(&mut out, &word);
                        record(&mut table, word);
                    } else {
                        plain = plain + 1;
                        out.push(c);
                    }
                },
                None => {
                    state = 0;
                    plain = plain + 1;
                    out.push(c);
                },
            }
            i = i + 1;
        }
        proof {
            assert(chars@.take(n as int) =~= chars@);
        }
        let result = finish(&table, &out);
        proof {
            if self.ready() {
                law_scan_by_patterns(*self, text@);
            }
            assert forall|k: int| 0 <= k < result.entries().len() implies (#[trigger] result.entries()[k]).1 >= 1 by {
                assert(table@[k].1 >= 1);
            }
        }
        (result, clean)
    }
}

} // verus!
