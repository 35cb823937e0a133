//! The pieces of a scan that do not touch the automaton: folding a slice
//! of the text, writing to the output, and keeping the tally.

use vstd::prelude::*;
use crate::automaton::{fold_char, fold_text, bump, patch};
use crate::result::{MatchResult, keys_distinct, has_key, tally, lemma_tally_raise, lemma_tally_add};

verus! {

/// ASCII-only case folding of one character.
pub fn fold(c: char) -> (r: char)
    ensures
        r == fold_char(c),
{
    if 'A' <= c && c <= 'Z' {
        let b: u8 = c as u8;
        (b + 32) as char
    } else {
        c
    }
}

/// The characters of a string, in order.
pub fn chars_of(s: &str) -> (v: Vec<char>)
    ensures
        v@ == s@,
{
    let mut v: Vec<char> = Vec::new();
    for c in it: s.chars()
        invariant
            it.seq() == s@,
            v@ == it.seq().take(it.index() as int),
    {
        v.push(c);
        proof {
            assert(v@ =~= it.seq().take(it.index() + 1));
        }
    }
    proof {
        assert(s@.take(s@.len() as int) =~= s@);
    }
    v
}

/// `String::from_iter` on a vector of characters: the string made of
/// exactly these characters, in this order.
#[verifier::external_body]
pub(crate) fn string_of(v: &Vec<char>) -> (s: String)
    ensures
        s@ == v@,
{
    String::from_iter(v)
}

/// The folded characters of `text` from `from` up to `to`.
pub fn folded_slice(text: &Vec<char>, from: usize, to: usize) -> (word: Vec<char>)
    requires
        from <= to <= text@.len(),
    ensures
        word@ == fold_text(text@.subrange(from as int, to as int)),
{
    let mut word: Vec<char> = Vec::new();
    let mut i: usize = from;
    while i < to
        invariant
            from <= i <= to <= text@.len(),
            word@ == fold_text(text@.subrange(from as int, i as int)),
        decreases to - i,
    {
        word.push(fold(text[i]));
        proof {
            assert(word@ =~= fold_text(text@.subrange(from as int, i + 1)));
        }
        i = i + 1;
    }
    word
}

/// Writes `more` at the end of `out`.
pub fn append_chars(out: &mut Vec<char>, more: &Vec<char>)
    ensures
        final(out)@ == old(out)@ + more@,
{
    let n: usize = more.len();
    let mut i: usize = 0;
    proof {
        assert(out@ =~= old(out)@ + more@.take(0));
    }
    while i < n
        invariant
            n == more@.len(),
            i <= n,
            out@ == old(out)@ + more@.take(i as int),
        decreases n - i,
    {
        out.push(more[i]);
        proof {
            assert(out@ =~= old(out)@ + more@.take(i + 1));
        }
        i = i + 1;
    }
    proof {
        assert(more@.take(n as int) =~= more@);
    }
}

/// Takes back the part of the keyword already written and writes the
/// highlighted keyword instead.
pub fn write_highlight(out: &mut Vec<char>, word: &Vec<char>)
    requires
        word@.len() >= 1,
    ensures
        final(out)@ == patch(old(out)@, word@),
{
    let back: usize = word.len() - 1;
    let keep: usize = if out.len() >= back {
        out.len() - back
    } else {
        0
    };
    out.truncate(keep);
    let open = chars_of("<span class=\"keyword\">");
    let close = chars_of("</span>");
    append_chars(out, &open);
    append_chars(out, word);
    append_chars(out, &close);
    proof {
        assert(out@ =~= patch(old(out)@, word@));
    }
}

/// Whether two vectors hold the same characters.
pub fn same_chars(a: &Vec<char>, b: &Vec<char>) -> (same: bool)
    ensures
        same == (a@ == b@),
{
    if a.len() != b.len() {
        return false;
    }
    let n: usize = a.len();
    let mut i: usize = 0;
    while i < n
        invariant
            n == a@.len(),
            n == b@.len(),
            i <= n,
            a@.take(i as int) == b@.take(i as int),
        decreases n - i,
    {
        if a[i] != b[i] {
            return false;
        }
        proof {
            assert(a@.take(i + 1) =~= a@.take(i as int).push(a@[i as int]));
            assert(b@.take(i + 1) =~= b@.take(i as int).push(b@[i as int]));
        }
        i = i + 1;
    }
    proof {
        assert(a@.take(n as int) =~= a@);
        assert(b@.take(n as int) =~= b@);
    }
    true
}

/// The entries of a working tally as plain values.
pub open spec fn entries_of(table: Seq<(Vec<char>, usize)>) -> Seq<(Seq<char>, nat)> {
    Seq::new(table.len(), |k: int| (table[k].0@, table[k].1 as nat))
}

/// Counts one more occurrence of `word`.
pub fn record(table: &mut Vec<(Vec<char>, usize)>, word: Vec<char>)
    requires
        keys_distinct(entries_of(old(table)@)),
        forall|k: int| 0 <= k < old(table)@.len() ==> 1 <= (#[trigger] old(table)@[k]).1 < usize::MAX,
    ensures
        keys_distinct(entries_of(final(table)@)),
        tally(entries_of(final(table)@)) == bump(tally(entries_of(old(table)@)), word@),
        final(table)@.len() >= old(table)@.len(),
        forall|k: int|
            0 <= k < final(table)@.len() ==> 1 <= (#[trigger] final(table)@[k]).1 && (k < old(table)@.len()
                ==> final(table)@[k].1 <= old(table)@[k].1 + 1) && (k >= old(table)@.len()
                ==> final(table)@[k].1 == 1),
{
    let ghost before = entries_of(table@);
    let n: usize = table.len();
    let mut k: usize = 0;
    while k < n
        invariant
            n == table@.len(),
            k <= n,
            table@ == old(table)@,
            before == entries_of(table@),
            keys_distinct(before),
            forall|j: int| 0 <= j < n ==> 1 <= (#[trigger] table@[j]).1 < usize::MAX,
            forall|j: int| 0 <= j < k ==> (#[trigger] before[j]).0 != word@,
        decreases n - k,
    {
        if same_chars(&table[k].0, &word) {
            let seen: usize = table[k].1;
            table[k].1 = seen + 1;
            proof {
                assert(before[k as int].0 == word@);
                lemma_tally_raise(before, k as int);
                assert(entries_of(table@) =~= before.update(k as int, (word@, before[k as int].1 + 1)));
            }
            return ;
        }
        proof {
            assert(before[k as int].0 != word@);
        }
        k = k + 1;
    }
    proof {
        if has_key(before, word@) {
            let j = choose|j: int| 0 <= j < before.len() && (#[trigger] before[j]).0 == word@;
            assert(before[j].0 != word@);
        }
        lemma_tally_add(before, word@);
    }
    table.push((word, 1));
    proof {
        assert(entries_of(table@) =~= before.push((word@, 1nat)));
    }
}

/// Packs the working tally and the output into the result of the scan.
pub fn finish(table: &Vec<(Vec<char>, usize)>, out: &Vec<char>) -> (result: MatchResult)
    ensures
        result.entries() == entries_of(table@),
        result.modified_html@ == out@,
{
    let n: usize = table.len();
    let mut words: Vec<(String, usize)> = Vec::new();
    let mut k: usize = 0;
    while k < n
        invariant
            n == table@.len(),
            k <= n,
            words@.len() == k,
            forall|j: int| 0 <= j < k ==> (#[trigger] words@[j]).0@ == table@[j].0@ && words@[j].1 == table@[j].1,
        decreases n - k,
    {
        words.push((string_of(&table[k].0), table[k].1));
        k = k + 1;
    }
    let result = MatchResult { match_words: words, modified_html: string_of(out) };
    proof {
        assert(result.entries() =~= entries_of(table@));
    }
    result
}

} // verus!
