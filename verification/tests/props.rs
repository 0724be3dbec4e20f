use flashtext::trienode::KeywordTrieNode;
use flashtext::KeywordProcessor;
use std::collections::HashSet;

#[test]
fn isolated_keyword_reports_its_replacement() {
    let mut processor = KeywordProcessor::new(false);
    processor.add_keywords("kiwi", "fruit");
    let result = processor.find_keywords("kiwi");
    let mut expected = HashSet::new();
    expected.insert("fruit".to_string());
    assert_eq!(result, expected);
}

#[test]
fn unrelated_text_finds_nothing() {
    let mut processor = KeywordProcessor::new(false);
    processor.add_keyword("walnut");
    processor.add_keyword("pecan");
    let result = processor.find_keywords("a bowl of almonds and cashews");
    assert!(result.is_empty());
}

#[test]
fn insensitive_mode_ignores_input_casing() {
    let mut processor = KeywordProcessor::new(false);
    processor.add_keyword("Apple");
    let shouting = processor.find_keywords("APPLE pie");
    let whispering = processor.find_keywords("apple pie");
    let mut expected = HashSet::new();
    expected.insert("apple".to_string());
    assert_eq!(shouting, expected);
    assert_eq!(whispering, expected);
}

#[test]
fn sensitive_mode_rejects_differing_case() {
    let mut processor = KeywordProcessor::new(true);
    processor.add_keyword("Rust");
    let result = processor.find_keywords("rust is great");
    assert!(result.is_empty());
}

#[test]
fn replace_is_identity_without_occurrences() {
    let mut processor = KeywordProcessor::new(false);
    processor.add_keywords("grape", "raisin");
    assert_eq!(processor.replace_keywords("no fruit here"), "no fruit here");
    assert_eq!(processor.replace_keywords(""), "");
    let once = processor.replace_keywords("gra");
    assert_eq!(processor.replace_keywords(&once), "gra");
}

#[test]
fn replaced_keyword_is_not_found_again() {
    let mut processor = KeywordProcessor::new(false);
    processor.add_keywords("apple", "pear");
    let rewritten = processor.replace_keywords("An apple fell");
    assert_eq!(rewritten, "An pear fell");
    assert!(processor.find_keywords(&rewritten).is_empty());
}

#[test]
fn reregistering_uses_latest_replacement() {
    let mut processor = KeywordProcessor::new(false);
    processor.add_keywords("cat", "dog");
    processor.add_keywords("cat", "tiger");
    let mut expected = HashSet::new();
    expected.insert("tiger".to_string());
    assert_eq!(processor.find_keywords("a cat sat"), expected);
    assert_eq!(processor.replace_keywords("a cat sat"), "a tiger sat");
}

#[test]
fn reregistering_a_prefix_keeps_longer_keywords() {
    let mut processor = KeywordProcessor::new(true);
    processor.add_keyword("Rustaceans");
    processor.add_keywords("Rust", "Go");
    let mut expected = HashSet::new();
    expected.insert("Go".to_string());
    expected.insert("Rustaceans".to_string());
    assert_eq!(processor.find_keywords("Rustaceans use Rust"), expected);
}

#[test]
fn empty_keyword_registration_is_a_no_op() {
    let mut processor = KeywordProcessor::new(false);
    processor.add_keyword("");
    processor.add_keywords("", "ghost");
    assert!(processor.find_keywords("anything at all").is_empty());
    assert_eq!(processor.replace_keywords("anything at all"), "anything at all");
}

#[test]
fn empty_input_yields_empty_results() {
    let mut processor = KeywordProcessor::new(false);
    processor.add_keyword("word");
    assert!(processor.find_keywords("").is_empty());
    assert_eq!(processor.replace_keywords(""), "");
}

#[test]
fn consumed_overlap_is_skipped() {
    let mut processor = KeywordProcessor::new(false);
    processor.add_keyword("abc");
    processor.add_keyword("bcd");
    let mut expected = HashSet::new();
    expected.insert("abc".to_string());
    assert_eq!(processor.find_keywords("abcd"), expected);
}

#[test]
fn longest_match_along_a_path_wins() {
    let mut processor = KeywordProcessor::new(true);
    processor.add_keywords("Rust", "A");
    processor.add_keywords("Rustaceans", "B");
    assert_eq!(processor.replace_keywords("Rustaceans"), "B");
}

#[test]
fn dead_end_after_lock_emits_probed_characters() {
    let mut processor = KeywordProcessor::new(true);
    processor.add_keywords("Rust", "Go");
    processor.add_keywords("Rustaceans", "people");
    assert_eq!(processor.replace_keywords("Rustacean!"), "Goacean!");
}

#[test]
fn trie_node_lookup_and_terminal_data() {
    let mut root = KeywordTrieNode::new(None, None, Vec::new());
    assert!(root.is_empty());
    assert!(!root.contains('h'));
    let word: Vec<char> = vec!['h', 'i'];
    root.add("hi", "hello", &word);
    assert!(root.contains('h'));
    assert!(!root.is_empty());
    let h = root.get('h').expect("edge for first character");
    let i = h.get('i').expect("edge for second character");
    assert!(i.contains_word("hi"));
    assert!(!i.contains_word("ho"));
    assert!(!h.contains_word("hi"));
    assert_eq!(i.get_word(), Some("hello".to_string()));
    assert_eq!(h.get_word(), None);
    assert!(root.get('x').is_none());
}
