use html_keywords_matching::{MatchResult, Trie};
use std::collections::HashMap;

fn built(words: &[&str]) -> Trie {
    let mut trie = Trie::new();
    trie.build(words.iter().map(|w| w.to_string()).collect());
    trie
}

fn counts(result: &MatchResult) -> HashMap<String, usize> {
    result.match_words.iter().cloned().collect()
}

fn expect(pairs: &[(&str, usize)]) -> HashMap<String, usize> {
    pairs.iter().map(|(w, n)| (w.to_string(), *n)).collect()
}

fn wrap(word: &str) -> String {
    format!("<span class=\"keyword\">{}</span>", word)
}

#[test]
fn test_trie() {
    let mut trie = Trie::new();
    trie.build(vec![
        "he".to_string(),
        "her".to_string(),
        "say".to_string(),
        "she".to_string(),
        "shr".to_string(),
    ]);
    trie.build_fail_point();
    assert!(trie.root().get_child(&'h').is_some());
    assert!(trie.root().get_child(&'s').is_some());
    assert!(trie.root().get_child(&'a').is_none());

    let h_node = trie.node(trie.root().get_child(&'h').unwrap()).unwrap();
    assert!(h_node.get_child(&'e').is_some());
    assert!(h_node.get_child(&'s').is_none());

    let s_node = trie.node(trie.root().get_child(&'s').unwrap()).unwrap();
    assert!(s_node.get_child(&'h').is_some());
    assert!(s_node.get_child(&'a').is_some());
    assert!(s_node.get_child(&'e').is_none());

    let sh_node = trie.node(s_node.get_child(&'h').unwrap()).unwrap();
    assert!(sh_node.get_child(&'r').is_some());
    assert!(sh_node.get_child(&'e').is_some());

    assert!(sh_node.get_fail().is_some());

    let she_node = trie.node(sh_node.get_child(&'e').unwrap()).unwrap();
    assert!(she_node.get_fail().is_some());
    assert!(she_node.is_end_words == true);
}

#[test]
fn new_trie_is_a_lone_root() {
    let trie = Trie::new();
    assert_eq!(trie.node_count(), 1);
    assert!(trie.root().get_fail().is_none());
    assert_eq!(trie.root().depth, 0);
    assert!(!trie.root().is_end_words);
    assert!(trie.node(1).is_none());
}

#[test]
fn insert_shares_prefixes_and_is_idempotent() {
    let mut trie = Trie::new();
    trie.insert("he".to_string());
    assert_eq!(trie.node_count(), 3);
    trie.insert("her".to_string());
    assert_eq!(trie.node_count(), 4);
    trie.insert("he".to_string());
    assert_eq!(trie.node_count(), 4);
    let h = trie.node(trie.root().get_child(&'h').unwrap()).unwrap();
    assert_eq!(h.depth, 1);
    assert!(!h.is_end_words);
    let he = trie.node(h.get_child(&'e').unwrap()).unwrap();
    assert_eq!(he.depth, 2);
    assert!(he.is_end_words);
    assert_eq!(he.get_fail(), Some(0));
}

#[test]
fn insert_keeps_case_as_given() {
    let mut trie = Trie::new();
    trie.insert("Ab".to_string());
    assert!(trie.root().get_child(&'A').is_some());
    assert!(trie.root().get_child(&'a').is_none());
}

#[test]
fn links_of_root_children_lead_to_root() {
    let trie = built(&["he", "she", "say"]);
    let h = trie.root().get_child(&'h').unwrap();
    let s = trie.root().get_child(&'s').unwrap();
    assert_eq!(trie.node(h).unwrap().get_fail(), Some(0));
    assert_eq!(trie.node(s).unwrap().get_fail(), Some(0));
}

#[test]
fn links_lead_to_longest_tail_in_trie() {
    let trie = built(&["he", "she", "say"]);
    let h = trie.root().get_child(&'h').unwrap();
    let he = trie.node(h).unwrap().get_child(&'e').unwrap();
    let s = trie.root().get_child(&'s').unwrap();
    let sh = trie.node(s).unwrap().get_child(&'h').unwrap();
    let she = trie.node(sh).unwrap().get_child(&'e').unwrap();
    let sa = trie.node(s).unwrap().get_child(&'a').unwrap();
    assert_eq!(trie.node(sh).unwrap().get_fail(), Some(h));
    assert_eq!(trie.node(she).unwrap().get_fail(), Some(he));
    assert_eq!(trie.node(sa).unwrap().get_fail(), Some(0));
    assert_eq!(trie.node(he).unwrap().get_fail(), Some(0));
}

#[test]
fn links_are_compiled_below_a_node_that_falls_back_to_root() {
    let trie = built(&["abcz", "cd"]);
    let a = trie.root().get_child(&'a').unwrap();
    let ab = trie.node(a).unwrap().get_child(&'b').unwrap();
    let abc = trie.node(ab).unwrap().get_child(&'c').unwrap();
    let c = trie.root().get_child(&'c').unwrap();
    assert_eq!(trie.node(ab).unwrap().get_fail(), Some(0));
    assert_eq!(trie.node(abc).unwrap().get_fail(), Some(c));
    let result = trie.search_replace(&"abcd".to_string());
    assert_eq!(counts(&result), expect(&[("cd", 1)]));
    assert_eq!(result.modified_html, format!("ab{}", wrap("cd")));
}

#[test]
fn enter_falls_back_until_an_edge_is_found() {
    let trie = built(&["abx", "bc"]);
    let a = trie.root().get_child(&'a').unwrap();
    let ab = trie.node(a).unwrap().get_child(&'b').unwrap();
    let b = trie.root().get_child(&'b').unwrap();
    let bc = trie.node(b).unwrap().get_child(&'c').unwrap();
    assert_eq!(trie.enter(ab, 'c'), Some(bc));
    assert_eq!(trie.enter(ab, 'q'), None);
    assert_eq!(trie.enter(0, 'a'), Some(a));
}

#[test]
fn match_found_through_a_failure_link() {
    let trie = built(&["abx", "bc"]);
    let result = trie.search_replace(&"abc".to_string());
    assert_eq!(counts(&result), expect(&[("bc", 1)]));
    assert_eq!(result.modified_html, format!("a{}", wrap("bc")));
}

#[test]
fn text_equal_to_a_pattern() {
    let trie = built(&["openai", "stack overflow", "prompt engineering"]);
    let result = trie.search_replace(&"stack overflow".to_string());
    assert_eq!(counts(&result), expect(&[("stack overflow", 1)]));
    assert_eq!(result.modified_html, wrap("stack overflow"));
    assert_eq!(
        result.modified_html,
        "<span class=\"keyword\">stack overflow</span>"
    );
}

#[test]
fn scanning_twice_gives_the_same() {
    let trie = built(&["he", "she", "say"]);
    let text = "She said: say hello".to_string();
    let first = trie.search_replace(&text);
    let second = trie.search_replace(&text);
    assert_eq!(first.match_words, second.match_words);
    assert_eq!(first.modified_html, second.modified_html);
}

#[test]
fn no_pattern_in_text() {
    let trie = built(&["abc", "xyz"]);
    let result = trie.search_replace(&"XY ab, Zc!".to_string());
    assert!(result.match_words.is_empty());
    assert_eq!(result.distinct_words(), 0);
    assert_eq!(result.modified_html, "xy ab, zc!");
}

#[test]
fn case_is_folded_in_the_text_only() {
    let trie = built(&["test"]);
    let result = trie.search_replace(&"Test TEST tEsT".to_string());
    assert_eq!(counts(&result), expect(&[("test", 3)]));
    assert_eq!(
        result.modified_html,
        format!("{} {} {}", wrap("test"), wrap("test"), wrap("test"))
    );
    assert_eq!(result.count_of(&"test".to_string()), 3);
    assert_eq!(result.count_of(&"Test".to_string()), 0);
}

#[test]
fn upper_case_pattern_never_matches() {
    let trie = built(&["Test"]);
    let result = trie.search_replace(&"Test test".to_string());
    assert!(result.match_words.is_empty());
    assert_eq!(result.modified_html, "test test");
}

#[test]
fn only_ascii_letters_are_folded() {
    let trie = built(&["na\u{ef}ve", "\u{e9}"]);
    let result = trie.search_replace(&"NA\u{ef}VE \u{c9}[Z@`{".to_string());
    assert_eq!(counts(&result), expect(&[("na\u{ef}ve", 1)]));
    assert_eq!(
        result.modified_html,
        format!("{} \u{c9}[z@`{{", wrap("na\u{ef}ve"))
    );
}

#[test]
fn she_said_hello() {
    let trie = built(&["he", "she", "say"]);
    let result = trie.search_replace(&"she said hello".to_string());
    assert_eq!(counts(&result), expect(&[("she", 1), ("he", 1)]));
    assert_eq!(result.count_of(&"say".to_string()), 0);
    assert_eq!(
        result.modified_html,
        "<span class=\"keyword\">she</span> said <span class=\"keyword\">he</span>llo"
    );
}

#[test]
fn shorter_keyword_ending_with_a_longer_path_is_not_reported() {
    let trie = built(&["he", "she"]);
    let result = trie.search_replace(&"she".to_string());
    assert_eq!(counts(&result), expect(&[("she", 1)]));
    assert_eq!(result.modified_html, wrap("she"));
}

#[test]
fn keyword_that_starts_another_is_reported_first() {
    let trie = built(&["he", "her"]);
    let result = trie.search_replace(&"her".to_string());
    assert_eq!(counts(&result), expect(&[("he", 1), ("her", 1)]));
    assert_eq!(
        result.modified_html,
        "<span class=\"keyword\">he</spa<span class=\"keyword\">her</span>"
    );
}

#[test]
fn empty_pattern_set() {
    let trie = built(&[]);
    let result = trie.search_replace(&"Any TEXT at all".to_string());
    assert!(result.match_words.is_empty());
    assert_eq!(result.modified_html, "any text at all");
}

#[test]
fn empty_text() {
    let trie = built(&["he", "she"]);
    let result = trie.search_replace(&String::new());
    assert!(result.match_words.is_empty());
    assert_eq!(result.modified_html, "");
}

#[test]
fn empty_pattern_is_never_reported() {
    let trie = built(&["", "a"]);
    assert!(trie.root().is_end_words);
    let result = trie.search_replace(&"ba".to_string());
    assert_eq!(counts(&result), expect(&[("a", 1)]));
    assert_eq!(result.modified_html, format!("b{}", wrap("a")));
}

#[test]
fn repeated_keyword_is_counted_each_time() {
    let trie = built(&["ab", "cd"]);
    let result = trie.search_replace(&"ab cd AB ab".to_string());
    assert_eq!(counts(&result), expect(&[("ab", 3), ("cd", 1)]));
    assert_eq!(result.distinct_words(), 2);
    assert_eq!(result.count_of(&"ab".to_string()), 3);
    assert_eq!(result.count_of(&"cd".to_string()), 1);
    assert_eq!(result.count_of(&"zz".to_string()), 0);
    assert_eq!(
        result.modified_html,
        format!("{} {} {} {}", wrap("ab"), wrap("cd"), wrap("ab"), wrap("ab"))
    );
}

#[test]
fn single_character_keyword() {
    let trie = built(&["a"]);
    let result = trie.search_replace(&"banana".to_string());
    assert_eq!(counts(&result), expect(&[("a", 3)]));
    assert_eq!(
        result.modified_html,
        format!("b{}n{}n{}", wrap("a"), wrap("a"), wrap("a"))
    );
}

#[test]
fn validated_scan_is_clean_without_overlap() {
    let trie = built(&["ab", "cd", "x"]);
    let (result, clean) = trie.search_replace_validated(&"ab cd x abab".to_string());
    assert!(clean);
    assert_eq!(counts(&result), expect(&[("ab", 3), ("cd", 1), ("x", 1)]));
    assert_eq!(
        result.modified_html,
        format!(
            "{} {} {} {}{}",
            wrap("ab"),
            wrap("cd"),
            wrap("x"),
            wrap("ab"),
            wrap("ab")
        )
    );
}

#[test]
fn validated_scan_tells_of_nested_keywords() {
    let trie = built(&["he", "her"]);
    let (result, clean) = trie.search_replace_validated(&"her".to_string());
    assert!(!clean);
    assert_eq!(counts(&result), expect(&[("he", 1), ("her", 1)]));
}

#[test]
fn validated_scan_tells_of_overlapping_keywords() {
    let trie = built(&["ab", "bc"]);
    let (result, clean) = trie.search_replace_validated(&"abc".to_string());
    assert!(!clean);
    assert_eq!(counts(&result), expect(&[("ab", 1), ("bc", 1)]));
    assert_eq!(
        result.modified_html,
        "<span class=\"keyword\">ab</span<span class=\"keyword\">bc</span>"
    );
}

#[test]
fn validated_scan_gives_what_the_plain_scan_gives() {
    let trie = built(&["he", "she", "say"]);
    let text = "She SAYS he said".to_string();
    let plain = trie.search_replace(&text);
    let (result, clean) = trie.search_replace_validated(&text);
    assert!(clean);
    assert_eq!(plain.match_words, result.match_words);
    assert_eq!(plain.modified_html, result.modified_html);
    assert_eq!(counts(&result), expect(&[("she", 1), ("say", 1), ("he", 1)]));
    assert_eq!(
        result.modified_html,
        format!("{} {}s {} said", wrap("she"), wrap("say"), wrap("he"))
    );
}

#[test]
fn texts_that_differ_in_case_are_scanned_alike() {
    let trie = built(&["stack overflow", "openai"]);
    let lower = trie.search_replace(&"ask openai or stack overflow".to_string());
    let mixed = trie.search_replace(&"Ask OpenAI or Stack Overflow".to_string());
    assert_eq!(lower.match_words, mixed.match_words);
    assert_eq!(lower.modified_html, mixed.modified_html);
    assert_eq!(
        counts(&mixed),
        expect(&[("openai", 1), ("stack overflow", 1)])
    );
}

#[test]
fn insert_after_build_keeps_compiled_links() {
    let mut trie = built(&["she", "he"]);
    let s = trie.root().get_child(&'s').unwrap();
    let sh = trie.node(s).unwrap().get_child(&'h').unwrap();
    let h = trie.root().get_child(&'h').unwrap();
    assert_eq!(trie.node(sh).unwrap().get_fail(), Some(h));
    let before = trie.node_count();
    trie.insert("shy".to_string());
    assert_eq!(trie.node_count(), before + 1);
    assert_eq!(trie.node(sh).unwrap().get_fail(), Some(h));
    let shy = trie.node(sh).unwrap().get_child(&'y').unwrap();
    assert_eq!(shy, before);
    assert_eq!(trie.node(shy).unwrap().get_fail(), Some(0));
    assert!(trie.node(shy).unwrap().is_end_words);
}

#[test]
fn build_twice_adds_patterns() {
    let mut trie = built(&["ab"]);
    trie.build(vec!["bc".to_string()]);
    let result = trie.search_replace(&"xbc ab".to_string());
    assert_eq!(counts(&result), expect(&[("bc", 1), ("ab", 1)]));
    assert_eq!(
        result.modified_html,
        format!("x{} {}", wrap("bc"), wrap("ab"))
    );
}

#[test]
fn keyword_inside_a_longer_unfinished_path_is_missed() {
    let trie = built(&["he", "shex"]);
    let result = trie.search_replace(&"she".to_string());
    assert!(result.match_words.is_empty());
    assert_eq!(result.modified_html, "she");
    let later = trie.search_replace(&"she he".to_string());
    assert_eq!(counts(&later), expect(&[("he", 1)]));
    assert_eq!(later.modified_html, format!("she {}", wrap("he")));
}
