//! What a scan finds, stated over the set of patterns alone.

use vstd::prelude::*;
use crate::automaton::{fold_char, fold_text, is_suffix, is_prefix, patch, bump};

verus! {

/// `w` is empty or a beginning of some pattern.
pub open spec fn begins(patterns: Set<Seq<char>>, w: Seq<char>) -> bool {
    w.len() == 0 || exists|p: Seq<char>| #[trigger] patterns.contains(p) && is_prefix(w, p)
}

/// The longest tail of `t`, among those that start at `start` or later,
/// that is a beginning of some pattern; empty if there is none.
pub open spec fn tail_from(patterns: Set<Seq<char>>, t: Seq<char>, start: int) -> Seq<char>
    decreases t.len() - start,
{
    if start >= t.len() {
        Seq::empty()
    } else if begins(patterns, t.skip(start)) {
        t.skip(start)
    } else {
        tail_from(patterns, t, start + 1)
    }
}

/// The longest tail of `t` that is a beginning of some pattern.
pub open spec fn longest_tail(patterns: Set<Seq<char>>, t: Seq<char>) -> Seq<char> {
    tail_from(patterns, t, 0)
}

/// The keyword reported after the last character of `text`, if any: the
/// longest tail of the folded text that begins a pattern, provided it is
/// a whole pattern of at least one character.
pub open spec fn keyword_at_end(patterns: Set<Seq<char>>, text: Seq<char>) -> Option<Seq<char>> {
    let w = longest_tail(patterns, fold_text(text));
    if w.len() > 0 && patterns.contains(w) {
        Some(w)
    } else {
        None
    }
}

/// The rewritten text: each character is written folded, unless a keyword
/// is reported after it; then the highlighted keyword takes the place of
/// the characters of it written before.
pub open spec fn highlighted(patterns: Set<Seq<char>>, text: Seq<char>) -> Seq<char>
    decreases text.len(),
{
    if text.len() == 0 {
        Seq::empty()
    } else {
        let before = highlighted(patterns, text.drop_last());
        match keyword_at_end(patterns, text) {
            Some(w) => patch(before, w),
            None => before.push(fold_char(text.last())),
        }
    }
}

/// How often each keyword is reported in `text`.
pub open spec fn occurrences(patterns: Set<Seq<char>>, text: Seq<char>) -> Map<Seq<char>, nat>
    decreases text.len(),
{
    if text.len() == 0 {
        Map::empty()
    } else {
        let before = occurrences(patterns, text.drop_last());
        match keyword_at_end(patterns, text) {
            Some(w) => bump(before, w),
            None => before,
        }
    }
}

/// The longest tail is a tail that begins a pattern, and no tail from
/// `start` on that begins a pattern is longer.
pub proof fn lemma_tail_from(patterns: Set<Seq<char>>, t: Seq<char>, start: int, k: int)
    requires
        0 <= start <= k <= t.len(),
        begins(patterns, t.skip(k)),
    ensures
        is_suffix(tail_from(patterns, t, start), t),
        begins(patterns, tail_from(patterns, t, start)),
        t.len() - k <= tail_from(patterns, t, start).len(),
    decreases t.len() - start,
{
    if start >= t.len() {
        assert(t.skip(t.len() - 0) =~= Seq::<char>::empty());
    } else if begins(patterns, t.skip(start)) {
        assert(t.skip(t.len() - (t.len() - start)) =~= t.skip(start));
    } else {
        lemma_tail_from(patterns, t, start + 1, k);
    }
}

} // verus!
