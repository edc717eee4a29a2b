use word_grids::trie::TrieNode;
use word_grids::{solve_grids, ConfigError};

fn dict(words: &[&str]) -> Vec<Vec<u8>> {
    words.iter().map(|w| w.bytes().map(|b| b - 65).collect()).collect()
}

fn rendered_rows(sol: &Vec<u64>, rows: u8) -> Vec<String> {
    let text = word_grids::output::to_string(sol, rows);
    String::from_utf8(text).unwrap().split('\n').map(|s| s.to_string()).collect()
}

#[test]
fn two_by_two_full_alphabet_of_two() {
    // Every row and column over {A, B} is a word, so every one of the
    // 2^4 letter grids is a solution.
    let d = dict(&["AB", "BA", "AA", "BB"]);
    let (total, sols) = solve_grids(&d, &d, 2, 2, 1, true).unwrap();
    assert_eq!(total, 16);
    assert_eq!(sols.len(), 16);
}

#[test]
fn emitted_solutions_read_back_valid() {
    let d = dict(&["AB", "BA", "AA", "BB"]);
    let row_trie = TrieNode::from_words(&d);
    let col_trie = TrieNode::from_words(&d);
    let (_, sols) = solve_grids(&d, &d, 2, 2, 1, true).unwrap();
    for sol in &sols {
        let lines = rendered_rows(sol, 2);
        assert_eq!(lines.len(), 2);
        for line in &lines {
            let w: Vec<u8> = line.bytes().map(|b| b - 65).collect();
            assert!(row_trie.contains(&w));
        }
        for x in 0..2 {
            let col: Vec<u8> =
                (0..2).map(|y| lines[y].as_bytes()[x] - 65).collect();
            assert!(col_trie.contains(&col));
        }
    }
}

#[test]
fn count_matches_brute_force_two_by_three() {
    // With complete dictionaries over {A, B} every letter assignment is a
    // solution: the count must equal the unpruned enumeration 2^6.
    let rows_d = dict(&["AAA", "AAB", "ABA", "ABB", "BAA", "BAB", "BBA", "BBB"]);
    let cols_d = dict(&["AA", "AB", "BA", "BB"]);
    let (total, _) = solve_grids(&rows_d, &cols_d, 2, 3, 2, false).unwrap();
    assert_eq!(total, 64);
}

#[test]
fn restricted_dictionary_two_by_two() {
    // Rows and columns must come from {AB, BA}: the two latin-square-like
    // grids AB/BA and BA/AB are the only solutions.
    let d = dict(&["AB", "BA"]);
    let (total, sols) = solve_grids(&d, &d, 2, 2, 0, true).unwrap();
    assert_eq!(total, 2);
    let texts: Vec<String> = sols
        .iter()
        .map(|s| String::from_utf8(word_grids::output::to_string(s, 2)).unwrap())
        .collect();
    assert!(texts.contains(&"AB\nBA".to_string()));
    assert!(texts.contains(&"BA\nAB".to_string()));
}

#[test]
fn count_invariant_to_queue_depth() {
    let d = dict(&["AB", "BA", "AA", "BB"]);
    let mut totals = Vec::new();
    for k in 0..=5 {
        let (total, _) = solve_grids(&d, &d, 2, 2, k, false).unwrap();
        totals.push(total);
    }
    for t in &totals {
        assert_eq!(*t, totals[0]);
    }
}

#[test]
fn queue_depth_at_and_beyond_grid_size() {
    let d = dict(&["AB", "BA", "AA", "BB"]);
    let (at, sols_at) = solve_grids(&d, &d, 2, 2, 4, true).unwrap();
    let (beyond, sols_beyond) = solve_grids(&d, &d, 2, 2, 100, true).unwrap();
    assert_eq!(at, 16);
    assert_eq!(beyond, 16);
    assert_eq!(sols_at, sols_beyond);
}

#[test]
fn same_configuration_twice_is_identical() {
    let d = dict(&["AB", "BA", "BB"]);
    let first = solve_grids(&d, &d, 2, 2, 1, true).unwrap();
    let second = solve_grids(&d, &d, 2, 2, 1, true).unwrap();
    assert_eq!(first.0, second.0);
    assert_eq!(first.1, second.1);
}

#[test]
fn no_common_letters_means_zero_solutions() {
    let rows_d = dict(&["AB"]);
    let cols_d = dict(&["CD"]);
    let (total, sols) = solve_grids(&rows_d, &cols_d, 2, 2, 1, true).unwrap();
    assert_eq!(total, 0);
    assert_eq!(sols.len(), 0);
}

#[test]
fn one_by_one_grid() {
    let (total, _) = solve_grids(&dict(&["A"]), &dict(&["A"]), 1, 1, 0, false).unwrap();
    assert_eq!(total, 1);
    let (none, _) = solve_grids(&dict(&["A"]), &dict(&["B"]), 1, 1, 0, false).unwrap();
    assert_eq!(none, 0);
}

#[test]
fn empty_dictionaries_are_configuration_errors() {
    let d = dict(&["AB"]);
    assert_eq!(
        solve_grids(&Vec::new(), &d, 2, 2, 1, false),
        Err(ConfigError::NoRowWords)
    );
    assert_eq!(
        solve_grids(&d, &Vec::new(), 2, 2, 1, false),
        Err(ConfigError::NoColWords)
    );
}

#[test]
fn dimension_errors() {
    let long = dict(&["AAAAAAAAAAAAA"]);
    let d13: Vec<Vec<u8>> = long;
    assert_eq!(
        solve_grids(&d13, &dict(&["AAAAAAAAAAAAA"]), 13, 13, 1, false),
        Err(ConfigError::ColumnsTooLarge)
    );
    assert_eq!(
        solve_grids(&dict(&["AB"]), &dict(&["ABC"]), 3, 2, 1, false),
        Err(ConfigError::MoreRowsThanColumns)
    );
}

#[test]
fn counting_only_collects_nothing() {
    let d = dict(&["AB", "BA", "AA", "BB"]);
    let (total, sols) = solve_grids(&d, &d, 2, 2, 1, false).unwrap();
    assert_eq!(total, 16);
    assert!(sols.is_empty());
}
