//! Traversal order of the grid cells.
//!
//! Cells are visited in growing square shells: shell `s` first walks column
//! `s` downwards, then row `s` rightwards, then the diagonal cell `(s, s)`;
//! once the shells fill the `rows` × `rows` square, the remaining columns are
//! walked top to bottom. Each new letter thus lands on a row and a column
//! whose tries have already been advanced as far as possible, so invalid
//! branches are pruned early. Any permutation would be correct; this order is
//! a pruning heuristic.

use vstd::prelude::*;

verus! {

/// The position of cell `(x, y)` in the traversal order of a grid with
/// `rows` rows: square shells (keyed by `max(x, y)`) while `x < rows`, then
/// whole columns.
pub open spec fn pos_index(x: int, y: int, rows: int) -> int {
    if x < rows {
        if x > y {
            x * x + y
        } else if x < y {
            y * y + y + x
        } else {
            x * x + 2 * x
        }
    } else {
        rows * rows + (x - rows) * rows + y
    }
}

/// The cell visited after `pos`, for a grid of `rows` rows.
pub open spec fn next_pos_spec(pos: (u8, u8), rows: u8) -> (u8, u8) {
    let (x, y) = pos;
    if x >= y + 1 {
        if y + 1 == rows {
            ((x + 1) as u8, 0u8)
        } else if x == y + 1 {
            (0u8, (y + 1) as u8)
        } else {
            (x, (y + 1) as u8)
        }
    } else if x == y {
        ((x + 1) as u8, 0u8)
    } else {
        ((x + 1) as u8, y)
    }
}

/// Successor of a cell in the traversal order.
pub fn next_pos(pos: (u8, u8), rows: u8) -> (r: (u8, u8))
    requires
        pos.0 < 255,
        pos.1 < 255,
    ensures
        r == next_pos_spec(pos, rows),
{
    let (x, y) = pos;
    if x >= y + 1 {
        if y + 1 == rows {
            (x + 1, 0)
        } else if x == y + 1 {
            (0, y + 1)
        } else {
            (x, y + 1)
        }
    } else if x == y {
        (x + 1, 0)
    } else {
        (x + 1, y)
    }
}

/// Stepping to the next cell advances the traversal index by exactly one and
/// stays inside the row range.
proof fn lemma_next_pos_index(pos: (u8, u8), rows: u8)
    requires
        0 < rows,
        pos.1 < rows,
        pos.0 < 255,
    ensures
        pos_index(
            next_pos_spec(pos, rows).0 as int,
            next_pos_spec(pos, rows).1 as int,
            rows as int,
        ) == pos_index(pos.0 as int, pos.1 as int, rows as int) + 1,
        next_pos_spec(pos, rows).1 < rows,
{
    let x = pos.0 as int;
    let y = pos.1 as int;
    let r = rows as int;
    if x >= y + 1 {
        if y + 1 == r {
            assert(x >= r);
            assert(r * r + (x + 1 - r) * r == r * r + (x - r) * r + r) by (nonlinear_arith);
        } else if x == y + 1 {
            assert(x < r);
            assert((y + 1) * (y + 1) + (y + 1) == (y + 1) * (y + 1) + y + 1) by (nonlinear_arith);
            assert(x * x + y == (y + 1) * (y + 1) + y) by (nonlinear_arith)
                requires
                    x == y + 1;
        } else {
            assert(x > y + 1);
        }
    } else if x == y {
        if x + 1 < r {
            assert((x + 1) * (x + 1) == x * x + 2 * x + 1) by (nonlinear_arith);
        } else {
            assert(x + 1 == r);
            assert(r * r + (x + 1 - r) * r == x * x + 2 * x + 1) by (nonlinear_arith)
                requires
                    x + 1 == r;
        }
    } else {
        assert(x < y);
        if x + 1 == y {
            assert(y * y + 2 * y == y * y + y + x + 1);
        }
    }
}

/// A cell whose traversal index is below `rows * cols` lies inside the grid.
proof fn lemma_index_in_grid(x: int, y: int, rows: int, cols: int)
    requires
        0 < rows <= cols,
        0 <= x,
        0 <= y < rows,
        pos_index(x, y, rows) < rows * cols,
    ensures
        x < cols,
{
    if x >= cols {
        if x < rows {
            assert(false);
        } else {
            assert(rows * rows + (x - rows) * rows + y >= rows * cols) by (nonlinear_arith)
                requires
                    0 < rows <= cols,
                    x >= cols,
                    0 <= y;
        }
    }
}

/// The cell at step `k` of the traversal: `k` applications of `next_pos`
/// to the origin.
pub open spec fn iterated_pos(k: int, rows: u8) -> (u8, u8)
    decreases k,
{
    if k <= 0 {
        (0u8, 0u8)
    } else {
        next_pos_spec(iterated_pos(k - 1, rows), rows)
    }
}

/// The whole traversal order as a sequence.
pub open spec fn positions_seq(rows: u8, cols: u8) -> Seq<(u8, u8)> {
    Seq::new((rows as nat) * (cols as nat), |k: int| iterated_pos(k, rows))
}

/// The iterated traversal stays inside the grid and its `k`-th cell has
/// traversal index exactly `k`.
proof fn lemma_iterated_pos_props(k: int, rows: u8, cols: u8)
    requires
        0 < rows,
        rows <= cols,
        0 <= k < rows as int * cols as int,
    ensures
        iterated_pos(k, rows).1 < rows,
        iterated_pos(k, rows).0 < cols,
        pos_index(iterated_pos(k, rows).0 as int, iterated_pos(k, rows).1 as int, rows as int)
            == k,
    decreases k,
{
    if k == 0 {
        lemma_index_in_grid(0, 0, rows as int, cols as int);
    } else {
        lemma_iterated_pos_props(k - 1, rows, cols);
        let prev = iterated_pos(k - 1, rows);
        lemma_next_pos_index(prev, rows);
        lemma_index_in_grid(
            iterated_pos(k, rows).0 as int,
            iterated_pos(k, rows).1 as int,
            rows as int,
            cols as int,
        );
    }
}

/// Every in-grid cell's traversal index lies below `rows * cols`.
proof fn lemma_pos_index_bound(x: int, y: int, rows: int, cols: int)
    requires
        0 < rows <= cols,
        0 <= x < cols,
        0 <= y < rows,
    ensures
        0 <= pos_index(x, y, rows) < rows * cols,
{
    if x < rows {
        if x > y {
            assert(x * x + y < rows * rows) by (nonlinear_arith)
                requires
                    0 <= y < x < rows;
        } else if x < y {
            assert(y * y + y + x < rows * rows) by (nonlinear_arith)
                requires
                    0 <= x < y < rows;
        } else {
            assert(x * x + 2 * x < rows * rows) by (nonlinear_arith)
                requires
                    0 <= x < rows;
        }
        assert(rows * rows <= rows * cols) by (nonlinear_arith)
            requires
                0 < rows <= cols;
        assert(x * x >= 0 && y * y >= 0) by (nonlinear_arith);
    } else {
        assert(rows * rows + (x - rows) * rows + y < rows * cols) by (nonlinear_arith)
            requires
                0 < rows <= cols && rows <= x < cols && 0 <= y < rows;
        assert((x - rows) * rows >= 0) by (nonlinear_arith)
            requires
                x >= rows && rows > 0;
    }
}

/// Two different in-grid cells have different traversal indices.
proof fn lemma_pos_index_injective(x1: int, y1: int, x2: int, y2: int, rows: int, cols: int)
    requires
        0 < rows <= cols,
        0 <= x1 < cols,
        0 <= y1 < rows,
        0 <= x2 < cols,
        0 <= y2 < rows,
        pos_index(x1, y1, rows) == pos_index(x2, y2, rows),
    ensures
        x1 == x2 && y1 == y2,
{
    let r = rows;
    if x1 < r && x2 < r {
        let s1 = if x1 > y1 {
            x1
        } else {
            y1
        };
        let s2 = if x2 > y2 {
            x2
        } else {
            y2
        };
        assert(s1 * s1 <= pos_index(x1, y1, r) <= s1 * s1 + 2 * s1) by (nonlinear_arith)
            requires
                0 <= x1 < r && 0 <= y1 < r && s1 == (if x1 > y1 {
                    x1
                } else {
                    y1
                });
        assert(s2 * s2 <= pos_index(x2, y2, r) <= s2 * s2 + 2 * s2) by (nonlinear_arith)
            requires
                0 <= x2 < r && 0 <= y2 < r && s2 == (if x2 > y2 {
                    x2
                } else {
                    y2
                });
        assert(s1 == s2) by (nonlinear_arith)
            requires
                0 <= s1 && 0 <= s2 && s1 * s1 <= s2 * s2 + 2 * s2 && s2 * s2 <= s1 * s1 + 2 * s1;
    } else if x1 >= r && x2 >= r {
        assert(x1 == x2) by (nonlinear_arith)
            requires
                0 < r && x1 >= r && x2 >= r && 0 <= y1 < r && 0 <= y2 < r && r * r + (x1 - r) * r
                    + y1 == r * r + (x2 - r) * r + y2;
    } else if x1 < r {
        assert(pos_index(x1, y1, r) < r * r) by (nonlinear_arith)
            requires
                0 <= x1 < r && 0 <= y1 < r;
        assert(pos_index(x2, y2, r) >= r * r) by (nonlinear_arith)
            requires
                x2 >= r && r > 0 && y2 >= 0;
        assert(false);
    } else {
        assert(pos_index(x2, y2, r) < r * r) by (nonlinear_arith)
            requires
                0 <= x2 < r && 0 <= y2 < r;
        assert(pos_index(x1, y1, r) >= r * r) by (nonlinear_arith)
            requires
                x1 >= r && r > 0 && y1 >= 0;
        assert(false);
    }
}

/// Whether `(x, y)` is a cell of an `rows` × `cols` grid.
pub open spec fn cell_in_grid(x: u8, y: u8, rows: u8, cols: u8) -> bool {
    x < cols && y < rows
}

/// The traversal order is a valid permutation of the grid: it visits every
/// in-grid cell exactly once.
pub proof fn lemma_positions_permutation(rows: u8, cols: u8)
    requires
        rows <= cols,
    ensures
        positions_seq(rows, cols).len() == rows as int * cols as int,
        forall|x: u8, y: u8|
            #[trigger] cell_in_grid(x, y, rows, cols) ==> exists|k: int|
                0 <= k < positions_seq(rows, cols).len() && #[trigger] positions_seq(
                    rows,
                    cols,
                )[k] == (x, y),
        forall|k1: int, k2: int|
            0 <= k1 < k2 < positions_seq(rows, cols).len() ==> positions_seq(rows, cols)[k1]
                != positions_seq(rows, cols)[k2],
{
    let ps = positions_seq(rows, cols);
    let n = rows as int * cols as int;
    assert forall|x: u8, y: u8| #[trigger] cell_in_grid(x, y, rows, cols) implies exists|k: int|
        0 <= k < ps.len() && #[trigger] ps[k] == (x, y) by {
        let idx = pos_index(x as int, y as int, rows as int);
        lemma_pos_index_bound(x as int, y as int, rows as int, cols as int);
        lemma_iterated_pos_props(idx, rows, cols);
        lemma_pos_index_injective(
            iterated_pos(idx, rows).0 as int,
            iterated_pos(idx, rows).1 as int,
            x as int,
            y as int,
            rows as int,
            cols as int,
        );
        assert(ps[idx] == (x, y));
    }
    assert forall|k1: int, k2: int| 0 <= k1 < k2 < ps.len() implies ps[k1] != ps[k2] by {
        assert((rows as int) * (cols as int) > 0);
        assert(0 < rows) by (nonlinear_arith)
            requires
                (rows as int) * (cols as int) > 0;
        lemma_iterated_pos_props(k1, rows, cols);
        lemma_iterated_pos_props(k2, rows, cols);
    }
}

/// The cells of an `rows` × `cols` grid in traversal order: a sequence of
/// `rows * cols` distinct in-grid `(column, row)` pairs, starting at
/// `(0, 0)`, each followed by its `next_pos` successor; the cell at index
/// `k` is exactly the cell whose `pos_index` is `k`.
pub fn enumerate_positions(rows: u8, cols: u8) -> (r: Vec<(u8, u8)>)
    requires
        rows <= cols,
    ensures
        r@.len() == rows as int * cols as int,
        forall|k: int|
            0 <= k < r@.len() ==> (#[trigger] r@[k]).0 < cols && r@[k].1 < rows,
        forall|k: int|
            0 <= k < r@.len() ==> pos_index(
                (#[trigger] r@[k]).0 as int,
                r@[k].1 as int,
                rows as int,
            ) == k,
        r@.len() > 0 ==> r@[0] == (0u8, 0u8),
        forall|k: int|
            0 <= k < r@.len() - 1 ==> r@[k + 1] == next_pos_spec(#[trigger] r@[k], rows),
        forall|i: int, j: int| 0 <= i < j < r@.len() ==> r@[i] != r@[j],
        r@ == positions_seq(rows, cols),
{
    proof {
        assert((rows as int) * (cols as int) <= 255 * 255) by (nonlinear_arith)
            requires
                rows <= 255 && cols <= 255;
        assert(rows as int == 0 ==> (rows as int) * (cols as int) == 0) by (nonlinear_arith);
    }
    let n: usize = rows as usize * cols as usize;
    let mut r: Vec<(u8, u8)> = Vec::new();
    let mut pos: (u8, u8) = (0, 0);
    let mut i: usize = 0;
    while i < n
        invariant
            rows <= cols,
            n == rows as int * cols as int,
            0 <= i <= n,
            r@.len() == i,
            i < n ==> 0 < rows,
            0 < rows ==> pos.1 < rows,
            pos.0 <= 255,
            i < n ==> pos.0 < 255,
            pos_index(pos.0 as int, pos.1 as int, rows as int) == i,
            i == 0 ==> pos == (0u8, 0u8),
            forall|k: int|
                0 <= k < i ==> (#[trigger] r@[k]).0 < cols && r@[k].1 < rows,
            forall|k: int|
                0 <= k < i ==> pos_index((#[trigger] r@[k]).0 as int, r@[k].1 as int, rows as int)
                    == k,
            i > 0 ==> r@[0] == (0u8, 0u8),
            forall|k: int| 0 <= k < i - 1 ==> r@[k + 1] == next_pos_spec(#[trigger] r@[k], rows),
            i > 0 ==> pos == next_pos_spec(r@[i - 1], rows),
            pos == iterated_pos(i as int, rows),
            forall|k: int| 0 <= k < i ==> r@[k] == iterated_pos(k, rows),
        decreases n - i,
    {
        proof {
            lemma_index_in_grid(pos.0 as int, pos.1 as int, rows as int, cols as int);
            lemma_next_pos_index(pos, rows);
            if pos_index(next_pos_spec(pos, rows).0 as int, next_pos_spec(pos, rows).1 as int,
                rows as int) < rows as int * cols as int {
                lemma_index_in_grid(
                    next_pos_spec(pos, rows).0 as int,
                    next_pos_spec(pos, rows).1 as int,
                    rows as int,
                    cols as int,
                );
            }
        }
        r.push(pos);
        pos = next_pos(pos, rows);
        i = i + 1;
    }
    proof {
        assert(forall|i_: int, j_: int|
            0 <= i_ < j_ < r@.len() && r@[i_] == r@[j_] ==> i_ == j_);
        assert(r@ =~= positions_seq(rows, cols));
    }
    r
}

} // verus!
