//! One node of the pattern trie, held in an arena and linked by indices.

use vstd::prelude::*;

verus! {

/// A position in the pattern space: the characters on the way from the root
/// to this node are `path`.
pub struct TrieNode {
    /// True iff some inserted pattern ends exactly here.
    pub is_end_words: bool,
    /// Outgoing edges, one per character, each leading to an arena index.
    pub children: Vec<(char, usize)>,
    /// Failure link: the node taken on a miss; `None` only for the root.
    pub fail: Option<usize>,
    /// Number of characters from the root to this node.
    pub depth: usize,
    /// The characters from the root to this node.
    pub path: Ghost<Seq<char>>,
    /// The node and the edge of it that lead here (meaningless for the root).
    pub parent: Ghost<(int, int)>,
}

/// The target of the first edge labelled `c`, if there is one.
pub open spec fn find_edge(edges: Seq<(char, usize)>, c: char) -> Option<usize>
    decreases edges.len(),
{
    if edges.len() == 0 {
        None
    } else if edges[0].0 == c {
        Some(edges[0].1)
    } else {
        find_edge(edges.drop_first(), c)
    }
}

/// No two edges carry the same character.
pub open spec fn distinct_labels(edges: Seq<(char, usize)>) -> bool {
    forall|a: int, b: int| 0 <= a < b < edges.len() ==> (#[trigger] edges[a]).0 != (#[trigger] edges[b]).0
}

/// A found target is the target of some edge with that label.
pub proof fn lemma_find_edge_some(edges: Seq<(char, usize)>, c: char)
    ensures
        match find_edge(edges, c) {
            Some(j) => exists|e: int| 0 <= e < edges.len() && #[trigger] edges[e] == (c, j),
            None => forall|e: int| 0 <= e < edges.len() ==> (#[trigger] edges[e]).0 != c,
        },
    decreases edges.len(),
{
    if edges.len() == 0 {
    } else if edges[0].0 == c {
        assert(edges[0] == (c, edges[0].1));
    } else {
        let rest = edges.drop_first();
        lemma_find_edge_some(rest, c);
        match find_edge(rest, c) {
            Some(j) => {
                let e = choose|e: int| 0 <= e < rest.len() && #[trigger] rest[e] == (c, j);
                assert(edges[e + 1] == (c, j));
            },
            None => {
                assert forall|e: int| 0 <= e < edges.len() implies (#[trigger] edges[e]).0 != c by {
                    if e > 0 {
                        assert(rest[e - 1] == edges[e]);
                    }
                }
            },
        }
    }
}

/// With distinct labels, an edge is found by its label.
pub proof fn lemma_find_edge_at(edges: Seq<(char, usize)>, e: int)
    requires
        distinct_labels(edges),
        0 <= e < edges.len(),
    ensures
        find_edge(edges, edges[e].0) == Some(edges[e].1),
    decreases edges.len(),
{
    if e > 0 {
        let rest = edges.drop_first();
        assert(edges[0].0 != edges[e].0);
        assert(rest[e - 1] == edges[e]);
        assert forall|a: int, b: int| 0 <= a < b < rest.len() implies (#[trigger] rest[a]).0 != (#[trigger] rest[b]).0 by {
            assert(rest[a] == edges[a + 1]);
            assert(rest[b] == edges[b + 1]);
        }
        lemma_find_edge_at(rest, e - 1);
    }
}

impl TrieNode {
    /// A fresh node at the given depth, without edges, not terminal.
    pub fn new(depth: usize) -> (node: TrieNode)
        ensures
            node.depth == depth,
            !node.is_end_words,
            node.children@.len() == 0,
            node.fail is None,
            node.path@ == Seq::<char>::empty(),
    {
        TrieNode {
            is_end_words: false,
            children: Vec::new(),
            fail: None,
            depth,
            path: Ghost(Seq::empty()),
            parent: Ghost((0, 0)),
        }
    }

    /// The child reached on `c`, if this node has an edge for it.
    pub fn get_child(&self, c: &char) -> (child: Option<usize>)
        ensures
            child == find_edge(self.children@, *c),
    {
        let n: usize = self.children.len();
        let mut i: usize = 0;
        proof {
            assert(self.children@.skip(0) =~= self.children@);
        }
        while i < n
            invariant
                n == self.children@.len(),
                i <= n,
                find_edge(self.children@, *c) == find_edge(self.children@.skip(i as int), *c),
            decreases n - i,
        {
            let edge = self.children[i];
            proof {
                let rest = self.children@.skip(i as int);
                assert(rest[0] == self.children@[i as int]);
                assert(rest.drop_first() =~= self.children@.skip(i + 1));
            }
            if edge.0 == *c {
                return Some(edge.1);
            }
            i = i + 1;
        }
        proof {
            assert(self.children@.skip(n as int).len() == 0);
        }
        None
    }

    /// The node to fall back to on a miss.
    pub fn get_fail(&self) -> (fail: Option<usize>)
        ensures
            fail == self.fail,
    {
        self.fail
    }
}

} // verus!
