//! What a scan hands back: the occurrence counts and the rewritten text.

use vstd::prelude::*;
use crate::automaton::bump;

verus! {

/// No keyword stands in two entries.
pub open spec fn keys_distinct(entries: Seq<(Seq<char>, nat)>) -> bool {
    forall|a: int, b: int| 0 <= a < b < entries.len() ==> (#[trigger] entries[a]).0 != (#[trigger] entries[b]).0
}

/// Some entry is about `word`.
pub open spec fn has_key(entries: Seq<(Seq<char>, nat)>, word: Seq<char>) -> bool {
    exists|k: int| 0 <= k < entries.len() && (#[trigger] entries[k]).0 == word
}

/// The mapping from keyword to count that a list of entries stands for.
pub open spec fn tally(entries: Seq<(Seq<char>, nat)>) -> Map<Seq<char>, nat> {
    Map::new(
        |w: Seq<char>| has_key(entries, w),
        |w: Seq<char>| entries[choose|k: int| 0 <= k < entries.len() && (#[trigger] entries[k]).0 == w].1,
    )
}

/// With distinct keywords, each entry is what the mapping says of its keyword.
pub proof fn lemma_tally_at(entries: Seq<(Seq<char>, nat)>, k: int)
    requires
        keys_distinct(entries),
        0 <= k < entries.len(),
    ensures
        tally(entries).contains_key(entries[k].0),
        tally(entries)[entries[k].0] == entries[k].1,
{
    let w = entries[k].0;
    assert(has_key(entries, w));
    let j = choose|j: int| 0 <= j < entries.len() && (#[trigger] entries[j]).0 == w;
    if j < k {
        assert(entries[j].0 != entries[k].0);
    } else if k < j {
        assert(entries[k].0 != entries[j].0);
    }
}

/// Raising the count of entry `k` by one is one more occurrence of its keyword.
pub proof fn lemma_tally_raise(entries: Seq<(Seq<char>, nat)>, k: int)
    requires
        keys_distinct(entries),
        0 <= k < entries.len(),
    ensures
        keys_distinct(entries.update(k, (entries[k].0, entries[k].1 + 1))),
        tally(entries.update(k, (entries[k].0, entries[k].1 + 1))) == bump(tally(entries), entries[k].0),
{
    let w = entries[k].0;
    let raised = entries.update(k, (w, entries[k].1 + 1));
    assert forall|a: int, b: int| 0 <= a < b < raised.len() implies (#[trigger] raised[a]).0 != (#[trigger] raised[b]).0 by {
        assert(raised[a].0 == entries[a].0);
        assert(raised[b].0 == entries[b].0);
    }
    let goal = bump(tally(entries), w);
    lemma_tally_at(entries, k);
    assert forall|v: Seq<char>| tally(raised).contains_key(v) <==> goal.contains_key(v) by {
        if has_key(raised, v) {
            let j = choose|j: int| 0 <= j < raised.len() && (#[trigger] raised[j]).0 == v;
            assert(entries[j].0 == v);
        }
        if has_key(entries, v) {
            let j = choose|j: int| 0 <= j < entries.len() && (#[trigger] entries[j]).0 == v;
            assert(raised[j].0 == v);
        }
        if v == w {
            assert(raised[k].0 == v);
        }
    }
    assert forall|v: Seq<char>| tally(raised).contains_key(v) implies tally(raised)[v] == goal[v] by {
        let j = choose|j: int| 0 <= j < raised.len() && (#[trigger] raised[j]).0 == v;
        lemma_tally_at(raised, j);
        assert(entries[j].0 == v);
        lemma_tally_at(entries, j);
        if j != k {
            if j < k {
                assert(entries[j].0 != entries[k].0);
            } else {
                assert(entries[k].0 != entries[j].0);
            }
        }
    }
    assert(tally(raised) =~= goal);
}

/// Adding an entry with count one for a keyword that has none is one
/// occurrence of it.
pub proof fn lemma_tally_add(entries: Seq<(Seq<char>, nat)>, word: Seq<char>)
    requires
        keys_distinct(entries),
        !has_key(entries, word),
    ensures
        keys_distinct(entries.push((word, 1))),
        tally(entries.push((word, 1))) == bump(tally(entries), word),
{
    let added = entries.push((word, 1nat));
    assert forall|a: int, b: int| 0 <= a < b < added.len() implies (#[trigger] added[a]).0 != (#[trigger] added[b]).0 by {
        assert(added[a] == entries[a]);
        if b < entries.len() {
            assert(added[b] == entries[b]);
        }
    }
    let goal = bump(tally(entries), word);
    assert forall|v: Seq<char>| tally(added).contains_key(v) <==> goal.contains_key(v) by {
        if has_key(added, v) {
            let j = choose|j: int| 0 <= j < added.len() && (#[trigger] added[j]).0 == v;
            if j < entries.len() {
                assert(entries[j].0 == v);
            }
        }
        if has_key(entries, v) {
            let j = choose|j: int| 0 <= j < entries.len() && (#[trigger] entries[j]).0 == v;
            assert(added[j].0 == v);
        }
        if v == word {
            assert(added[entries.len() as int].0 == v);
        }
    }
    assert forall|v: Seq<char>| tally(added).contains_key(v) implies tally(added)[v] == goal[v] by {
        let j = choose|j: int| 0 <= j < added.len() && (#[trigger] added[j]).0 == v;
        lemma_tally_at(added, j);
        if j < entries.len() {
            assert(entries[j].0 == v);
            lemma_tally_at(entries, j);
        }
    }
    assert(tally(added) =~= goal);
}

/// The outcome of one scan.
#[derive(Debug)]
pub struct MatchResult {
    /// Each reported keyword, folded, with the number of times it was
    /// reported; no keyword stands twice.
    pub match_words: Vec<(String, usize)>,
    /// The text with every reported keyword highlighted.
    pub modified_html: String,
}

impl MatchResult {
    /// The entries as plain values.
    pub open spec fn entries(&self) -> Seq<(Seq<char>, nat)> {
        Seq::new(self.match_words@.len(), |k: int| (self.match_words@[k].0@, self.match_words@[k].1 as nat))
    }

    /// The mapping from keyword to the number of times it was reported.
    pub open spec fn matches(&self) -> Map<Seq<char>, nat> {
        tally(self.entries())
    }

    /// No keyword stands twice, and every count is at least one.
    pub open spec fn wf(&self) -> bool {
        &&& keys_distinct(self.entries())
        &&& forall|k: int| 0 <= k < self.entries().len() ==> (#[trigger] self.entries()[k]).1 >= 1
    }

    /// How often `word` was reported; zero if it never was.
    pub fn count_of(&self, word: &String) -> (n: usize)
        requires
            self.wf(),
        ensures
            n == (if self.matches().contains_key(word@) { self.matches()[word@] } else { 0 }),
    {
        let total: usize = self.match_words.len();
        let mut k: usize = 0;
        while k < total
            invariant
                total == self.match_words@.len(),
                k <= total,
                self.wf(),
                forall|j: int| 0 <= j < k ==> (#[trigger] self.entries()[j]).0 != word@,
            decreases total - k,
        {
            if self.match_words[k].0 == *word {
                proof {
                    assert(self.entries()[k as int].0 == word@);
                    lemma_tally_at(self.entries(), k as int);
                }
                return self.match_words[k].1;
            }
            proof {
                assert(self.entries()[k as int].0 != word@);
            }
            k = k + 1;
        }
        proof {
            if has_key(self.entries(), word@) {
                let j = choose|j: int| 0 <= j < self.entries().len() && (#[trigger] self.entries()[j]).0 == word@;
                assert(self.entries()[j].0 != word@);
            }
        }
        0
    }

    /// The number of distinct keywords reported.
    pub fn distinct_words(&self) -> (n: usize)
        ensures
            n == self.entries().len(),
    {
        self.match_words.len()
    }
}

} // verus!
