//! Enumeration of word grids: every way to fill an `rows` × `cols` grid of
//! letters so that each row is a dictionary word of length `cols` and each
//! column a dictionary word of length `rows`.
//!
//! The run builds one prefix trie per word length, fixes the traversal
//! order of the cells, carves the search space into independent tasks by a
//! shallow backtracking pass, and runs every task to completion, counting
//! (and optionally collecting) the solutions. The task-queue depth and any
//! ordering or parallel claiming of the tasks never change the result: the
//! contract of `solve_grids` pins the count and the emitted solutions to
//! the tries alone.

pub mod geometry;
pub mod output;
pub mod queue;
pub mod scheduler;
pub mod search;
pub mod trie;

use crate::geometry::{enumerate_positions, positions_seq};
use crate::queue::{depth_after, generate_queue, lemma_queue_partition, task_views, Task};
use crate::scheduler::solve_tasks;
use crate::search::{count_from, derefs, sol_views, sols_from, state_wf};
use crate::trie::{is_trie_of, spec_word_len, uniform_words, word_views, TrieNode};
use vstd::prelude::*;

verus! {

/// Why a run is refused before any search work starts. Dimension errors
/// come before dictionary errors; a run that passes these checks always
/// completes.
#[derive(Clone, Copy, Debug, PartialEq, Eq, Structural)]
pub enum ConfigError {
    /// More than 12 columns: a word no longer fits the packed form.
    ColumnsTooLarge,
    /// More rows than columns.
    MoreRowsThanColumns,
    /// No dictionary word of the row length (`cols` letters).
    NoRowWords,
    /// No dictionary word of the column length (`rows` letters).
    NoColWords,
}

/// A runnable configuration: `rows <= cols <= 12`, both filtered
/// dictionaries nonempty.
pub open spec fn config_ok(
    row_words: Seq<Seq<u8>>,
    col_words: Seq<Seq<u8>>,
    rows: u8,
    cols: u8,
) -> bool {
    &&& cols <= 12
    &&& rows <= cols
    &&& row_words.len() > 0
    &&& col_words.len() > 0
}

/// The number of word grids determined by a row trie and a column trie:
/// the count of the full search from the empty grid.
pub open spec fn grid_count(rt: TrieNode, ct: TrieNode, rows: u8, cols: u8) -> nat {
    count_from(
        Seq::new(rows as nat, |i: int| rt),
        Seq::new(cols as nat, |i: int| ct),
        positions_seq(rows, cols),
        0,
    )
}

/// The word grids themselves (as packed accumulator vectors), in the
/// deterministic order of the full search from the empty grid.
pub open spec fn grid_sols(rt: TrieNode, ct: TrieNode, rows: u8, cols: u8) -> Seq<Seq<u64>> {
    sols_from(
        Seq::new(cols as nat, |i: int| 0u64),
        Seq::new(rows as nat, |i: int| rt),
        Seq::new(cols as nat, |i: int| ct),
        positions_seq(rows, cols),
        0,
    )
}

/// Runs a whole batch: validates the configuration, builds the two tries,
/// partitions the search over the first `queue_depth` cells, and runs every
/// task. Returns the total count and, when `emit` is set, every solution.
/// The result is pinned by the dictionaries and dimensions alone — neither
/// `queue_depth` nor any task ordering appears in it — so the count is
/// invariant under the partition depth, and two runs of one configuration
/// return the same count and the same solution list.
pub fn solve_grids(
    row_words: &Vec<Vec<u8>>,
    col_words: &Vec<Vec<u8>>,
    rows: u8,
    cols: u8,
    queue_depth: usize,
    emit: bool,
) -> (r: Result<(u64, Vec<Vec<u64>>), ConfigError>)
    requires
        uniform_words(word_views(row_words@)),
        uniform_words(word_views(col_words@)),
        row_words@.len() > 0 ==> spec_word_len(word_views(row_words@)) == cols as nat,
        col_words@.len() > 0 ==> spec_word_len(word_views(col_words@)) == rows as nat,
        forall|rt: TrieNode, ct: TrieNode|
            is_trie_of(rt, word_views(row_words@), cols as nat) && is_trie_of(
                ct,
                word_views(col_words@),
                rows as nat,
            ) ==> grid_count(rt, ct, rows, cols) <= u64::MAX,
    ensures
        r.is_ok() <==> config_ok(word_views(row_words@), word_views(col_words@), rows, cols),
        cols > 12 ==> r == Result::<(u64, Vec<Vec<u64>>), ConfigError>::Err(
            ConfigError::ColumnsTooLarge,
        ),
        cols <= 12 && rows > cols ==> r == Result::<(u64, Vec<Vec<u64>>), ConfigError>::Err(
            ConfigError::MoreRowsThanColumns,
        ),
        cols <= 12 && rows <= cols && row_words@.len() == 0 ==> r == Result::<
            (u64, Vec<Vec<u64>>),
            ConfigError,
        >::Err(ConfigError::NoRowWords),
        cols <= 12 && rows <= cols && row_words@.len() > 0 && col_words@.len() == 0 ==> r
            == Result::<(u64, Vec<Vec<u64>>), ConfigError>::Err(ConfigError::NoColWords),
        r matches Ok(p) ==> exists|rt: TrieNode, ct: TrieNode|
            {
                &&& #[trigger] is_trie_of(rt, word_views(row_words@), cols as nat)
                &&& #[trigger] is_trie_of(ct, word_views(col_words@), rows as nat)
                &&& p.0 == grid_count(rt, ct, rows, cols)
                &&& (emit ==> sol_views(p.1@) == grid_sols(rt, ct, rows, cols))
                &&& (!emit ==> p.1@.len() == 0)
            },
{
    if cols > 12 {
        return Err(ConfigError::ColumnsTooLarge);
    }
    if rows > cols {
        return Err(ConfigError::MoreRowsThanColumns);
    }
    if row_words.len() == 0 {
        return Err(ConfigError::NoRowWords);
    }
    if col_words.len() == 0 {
        return Err(ConfigError::NoColWords);
    }

    let trie_row = TrieNode::from_words(row_words);
    let trie_col = TrieNode::from_words(col_words);
    let positions = enumerate_positions(rows, cols);
    let ghost ps = positions@;

    let mut words: Vec<u64> = Vec::new();
    let mut i: usize = 0;
    while i < cols as usize
        invariant
            0 <= i <= cols as int,
            words@.len() == i,
            forall|m: int| 0 <= m < i ==> words@[m] == 0u64,
        decreases cols as int - i,
    {
        words.push(0);
        i = i + 1;
    }
    let mut nodes_row: Vec<&TrieNode> = Vec::new();
    let mut j: usize = 0;
    while j < rows as usize
        invariant
            0 <= j <= rows as int,
            nodes_row@.len() == j,
            forall|m: int| 0 <= m < j ==> nodes_row@[m] == &trie_row,
        decreases rows as int - j,
    {
        nodes_row.push(&trie_row);
        j = j + 1;
    }
    let mut nodes_col: Vec<&TrieNode> = Vec::new();
    let mut m: usize = 0;
    while m < cols as usize
        invariant
            0 <= m <= cols as int,
            nodes_col@.len() == m,
            forall|k: int| 0 <= k < m ==> nodes_col@[k] == &trie_col,
        decreases cols as int - m,
    {
        nodes_col.push(&trie_col);
        m = m + 1;
    }

    let ghost ws0 = words@;
    let ghost rsv = derefs(nodes_row@);
    let ghost csv = derefs(nodes_col@);
    proof {
        assert(ws0 =~= Seq::new(cols as nat, |i: int| 0u64));
        assert(rsv =~= Seq::new(rows as nat, |i: int| trie_row));
        assert(csv =~= Seq::new(cols as nat, |i: int| trie_col));
        assert(state_wf(words@, nodes_row@, nodes_col@, ps)) by {
            assert(forall|k: int| 0 <= k < nodes_row@.len() ==> (#[trigger] nodes_row@[k]).wf());
            assert(forall|k: int| 0 <= k < nodes_col@.len() ==> (#[trigger] nodes_col@[k]).wf());
        }
    }

    let mut queue: Vec<Task> = Vec::new();
    generate_queue(
        &mut words,
        &mut nodes_row,
        &mut nodes_col,
        &positions,
        0,
        queue_depth,
        &mut queue,
    );
    let depth: usize = if queue_depth > positions.len() {
        positions.len()
    } else {
        queue_depth
    };
    proof {
        lemma_queue_partition(ws0, rsv, csv, ps, 0, queue_depth as int);
        assert(depth as int == depth_after(ps, 0, queue_depth as int));
        assert(task_views(queue@) =~= crate::queue::queue_from(
            ws0,
            rsv,
            csv,
            ps,
            0,
            queue_depth as int,
        ));
        assert(grid_count(trie_row, trie_col, rows, cols) == count_from(rsv, csv, ps, 0));
        assert(is_trie_of(trie_row, word_views(row_words@), cols as nat));
        assert(is_trie_of(trie_col, word_views(col_words@), rows as nat));
        assert(grid_count(trie_row, trie_col, rows, cols) <= u64::MAX);
    }

    let mut out: Vec<Vec<u64>> = Vec::new();
    let total = solve_tasks(&queue, &positions, depth, emit, &mut out);
    proof {
        assert(total == count_from(rsv, csv, ps, 0));
        if emit {
            assert(sol_views(out@) =~= sols_from(ws0, rsv, csv, ps, 0));
            assert(sol_views(out@) == grid_sols(trie_row, trie_col, rows, cols));
        }
        assert(total == grid_count(trie_row, trie_col, rows, cols));
    }
    Ok((total, out))
}

} // verus!
