use word_grids::geometry::{enumerate_positions, next_pos};
use word_grids::output::{get_filename, to_string};
use word_grids::queue::Task;
use word_grids::scheduler::order_tasks;
use word_grids::trie::TrieNode;

fn words_of(list: &[&str]) -> Vec<Vec<u8>> {
    list.iter().map(|w| w.bytes().map(|b| b - 65).collect()).collect()
}

#[test]
fn traversal_order_two_by_three() {
    let ps = enumerate_positions(2, 3);
    assert_eq!(ps, vec![(0, 0), (1, 0), (0, 1), (1, 1), (2, 0), (2, 1)]);
}

#[test]
fn traversal_is_a_permutation_four_by_four() {
    let ps = enumerate_positions(4, 4);
    assert_eq!(ps.len(), 16);
    for x in 0..4u8 {
        for y in 0..4u8 {
            assert!(ps.contains(&(x, y)));
        }
    }
}

#[test]
fn next_pos_steps() {
    assert_eq!(next_pos((0, 0), 4), (1, 0));
    assert_eq!(next_pos((1, 0), 4), (0, 1));
    assert_eq!(next_pos((1, 1), 4), (2, 0));
    assert_eq!(next_pos((3, 3), 4), (4, 0));
    assert_eq!(next_pos((4, 3), 4), (5, 0));
}

#[test]
fn render_two_rows() {
    // Grid rows "AB" / "CD": column 0 packs A then C, column 1 B then D.
    let words: Vec<u64> = vec![0 + (2 << 5), 1 + (3 << 5)];
    let text = to_string(&words, 2);
    assert_eq!(String::from_utf8(text).unwrap(), "AB\nCD");
}

#[test]
fn render_single_row() {
    let words: Vec<u64> = vec![7, 4, 11, 11, 14];
    let text = to_string(&words, 1);
    assert_eq!(String::from_utf8(text).unwrap(), "HELLO");
}

#[test]
fn filename_without_fixed_letters_is_dimensions() {
    let ps = enumerate_positions(4, 4);
    let words: Vec<u64> = vec![0; 4];
    let name = get_filename(&words, &ps, 0, 4, 4);
    assert_eq!(String::from_utf8(name).unwrap(), "4x4.txt");
}

#[test]
fn filename_from_fixed_letters() {
    let ps = enumerate_positions(2, 2);
    // Grid rows "AB" / "BA".
    let words: Vec<u64> = vec![0 + (1 << 5), 1 + (0 << 5)];
    let name = get_filename(&words, &ps, 2, 2, 2);
    assert_eq!(String::from_utf8(name).unwrap(), "AB.txt");
}

#[test]
fn order_tasks_heaviest_first() {
    let small = TrieNode::from_words(&words_of(&["AB"]));
    let big = TrieNode::from_words(&words_of(&["AB", "BA", "BB"]));
    let tasks = vec![
        Task { words: vec![0, 0], nodes_row: vec![&small, &small], nodes_col: vec![&small, &small] },
        Task { words: vec![0, 0], nodes_row: vec![&big, &big], nodes_col: vec![&big, &big] },
    ];
    let ordered = order_tasks(tasks);
    assert_eq!(ordered.len(), 2);
    assert_eq!(ordered[0].weight, 3);
    assert_eq!(ordered[1].weight, 1);
}
