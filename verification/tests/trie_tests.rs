use word_grids::trie::TrieNode;

fn letters(words: &[&str]) -> Vec<Vec<u8>> {
    words.iter().map(|w| w.bytes().map(|b| b - 65).collect()).collect()
}

fn word(w: &str) -> Vec<u8> {
    w.bytes().map(|b| b - 65).collect()
}

#[test]
fn trie_contains_its_words() {
    let t = TrieNode::from_words(&letters(&["AB", "BA"]));
    assert!(t.contains(&word("AB")));
    assert!(t.contains(&word("BA")));
    assert!(!t.contains(&word("AA")));
    assert!(!t.contains(&word("BB")));
}

#[test]
fn trie_rejects_prefixes_and_extensions() {
    let t = TrieNode::from_words(&letters(&["AB", "BA"]));
    assert!(!t.contains(&word("A")));
    assert!(!t.contains(&word("")));
    assert!(!t.contains(&word("ABA")));
}

#[test]
fn trie_groups_unsorted_input() {
    // Words interleaved by first letter: grouping must be redone fully, a
    // single scan of runs would lose the second A-word.
    let t = TrieNode::from_words(&letters(&["BA", "AB", "AA", "BB"]));
    assert!(t.contains(&word("AB")));
    assert!(t.contains(&word("AA")));
    assert!(t.contains(&word("BA")));
    assert!(t.contains(&word("BB")));
    assert!(!t.contains(&word("CA")));
}

#[test]
fn trie_empty_dictionary() {
    let t = TrieNode::from_words(&Vec::new());
    assert!(!t.has_children);
    assert!(!t.contains(&word("A")));
}

#[test]
fn leaf_nodes_counts_words() {
    let t = TrieNode::from_words(&letters(&["ABC", "ABD", "BAA"]));
    assert_eq!(t.leaf_nodes(), 3);
    let leaf = TrieNode::from_words(&Vec::new());
    assert_eq!(leaf.leaf_nodes(), 1);
}

#[test]
fn trie_duplicate_words_collapse() {
    let t = TrieNode::from_words(&letters(&["AB", "AB", "BA"]));
    assert!(t.contains(&word("AB")));
    assert!(t.contains(&word("BA")));
    assert_eq!(t.leaf_nodes(), 2);
}
