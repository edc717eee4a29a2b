//! Rendering of solutions and of per-prefix output names.
//!
//! A solution is the final accumulator vector; it is rendered as `rows`
//! lines of letters separated by a newline byte, reading each column's
//! packed 5-bit fields. Output names group tasks by the letters the
//! partitioner fixed, so interleaved per-task output can be concatenated in
//! enumeration order afterwards. Everything is ASCII, produced as bytes.

use crate::search::letter_at;
use vstd::prelude::*;

verus! {

/// The rendered letters of row `y`: one ASCII byte per column.
pub open spec fn row_chars(ws: Seq<u64>, y: u8) -> Seq<u8> {
    Seq::new(ws.len(), |x: int| (letter_at(ws[x], y) + 65) as u8)
}

/// The first `upto` rows rendered, separated by newline bytes.
pub open spec fn render_rows(ws: Seq<u64>, upto: int) -> Seq<u8>
    decreases upto,
{
    if upto <= 0 {
        Seq::empty()
    } else if upto == 1 {
        row_chars(ws, 0)
    } else {
        render_rows(ws, upto - 1) + seq![10u8] + row_chars(ws, (upto - 1) as u8)
    }
}

/// A solution as grid text: `rows` lines of letters.
pub fn to_string(words: &Vec<u64>, rows: u8) -> (r: Vec<u8>)
    requires
        rows <= 12,
    ensures
        r@ == render_rows(words@, rows as int),
{
    let mut r: Vec<u8> = Vec::new();
    let mut y: u8 = 0;
    while y < rows
        invariant
            0 <= y <= rows,
            rows <= 12,
            r@ == render_rows(words@, y as int),
        decreases rows - y,
    {
        if y > 0 {
            r.push(10);
        }
        let ghost pre = r@;
        let mut x: usize = 0;
        while x < words.len()
            invariant
                0 <= x <= words@.len(),
                y < rows <= 12,
                r@ == pre + row_chars(words@, y).take(x as int),
            decreases words@.len() - x,
        {
            let l: u64 = (words[x] >> (5u64 * (y as u64))) & 31;
            proof {
                let w = words@[x as int];
                let s: u64 = (5 * (y as u64)) as u64;
                assert((w >> s) & 31 < 32) by (bit_vector);
            }
            let b: u8 = (l as u8) + 65;
            r.push(b);
            proof {
                assert(b == row_chars(words@, y)[x as int]);
                assert(row_chars(words@, y).take(x + 1) =~= row_chars(words@, y).take(
                    x as int,
                ).push(row_chars(words@, y)[x as int]));
                assert(r@ =~= pre + row_chars(words@, y).take(x + 1));
            }
            x = x + 1;
        }
        proof {
            assert(row_chars(words@, y).take(words@.len() as int) =~= row_chars(words@, y));
            if y == 0 {
                assert(pre =~= Seq::<u8>::empty());
                assert(r@ =~= row_chars(words@, 0));
            } else {
                assert(pre =~= render_rows(words@, y as int) + seq![10u8]);
                assert(r@ =~= render_rows(words@, y as int) + seq![10u8] + row_chars(words@, y));
            }
            assert(r@ =~= render_rows(words@, y as int + 1));
        }
        y = y + 1;
    }
    r
}

/// The decimal digits of a small count (at most two digits).
pub open spec fn digits_spec(n: u8) -> Seq<u8> {
    if n < 10 {
        seq![(48 + n) as u8]
    } else {
        seq![(48 + n / 10) as u8, (48 + n % 10) as u8]
    }
}

/// The trailing name extension.
pub open spec fn txt_suffix() -> Seq<u8> {
    seq![46u8, 116u8, 120u8, 116u8]
}

/// The letters the partitioner fixed: the first `k` cells of the traversal
/// order, read from the accumulators.
pub open spec fn prefix_letters(ws: Seq<u64>, ps: Seq<(u8, u8)>, k: int) -> Seq<u8> {
    Seq::new(
        if k < 0 {
            0
        } else {
            k as nat
        },
        |i: int| (letter_at(ws[ps[i].0 as int], ps[i].1) + 65) as u8,
    )
}

/// The output name of a task's group: its fixed letters followed by the
/// extension, or the grid dimensions (`<rows>x<cols>.txt`) when the
/// partitioner fixed no cells.
pub open spec fn filename_spec(
    ws: Seq<u64>,
    ps: Seq<(u8, u8)>,
    k: int,
    rows: u8,
    cols: u8,
) -> Seq<u8> {
    if k <= 0 {
        digits_spec(rows) + seq![120u8] + digits_spec(cols) + txt_suffix()
    } else {
        prefix_letters(ws, ps, k) + txt_suffix()
    }
}

/// Appends the decimal digits of `n`.
fn push_digits(r: &mut Vec<u8>, n: u8)
    requires
        n <= 99,
    ensures
        final(r)@ == old(r)@ + digits_spec(n),
{
    if n < 10 {
        r.push(48 + n);
        proof {
            assert(r@ =~= old(r)@ + digits_spec(n));
        }
    } else {
        r.push(48 + n / 10);
        r.push(48 + n % 10);
        proof {
            assert(r@ =~= old(r)@ + digits_spec(n));
        }
    }
}

/// The name of the output group of a task whose first `queue_letters`
/// cells are fixed in `words`.
pub fn get_filename(
    words: &Vec<u64>,
    positions: &Vec<(u8, u8)>,
    queue_letters: usize,
    rows: u8,
    cols: u8,
) -> (r: Vec<u8>)
    requires
        rows <= 12,
        cols <= 99,
        queue_letters <= positions@.len(),
        forall|i: int|
            0 <= i < positions@.len() ==> (#[trigger] positions@[i]).0 < words@.len()
                && positions@[i].1 < rows,
    ensures
        r@ == filename_spec(words@, positions@, queue_letters as int, rows, cols),
{
    let mut r: Vec<u8> = Vec::new();
    if queue_letters == 0 {
        push_digits(&mut r, rows);
        r.push(120);
        push_digits(&mut r, cols);
        r.push(46);
        r.push(116);
        r.push(120);
        r.push(116);
        proof {
            assert(r@ =~= filename_spec(words@, positions@, queue_letters as int, rows, cols));
        }
        return r;
    }
    let mut i: usize = 0;
    while i < queue_letters
        invariant
            0 <= i <= queue_letters,
            queue_letters <= positions@.len(),
            rows <= 12,
            forall|m: int|
                0 <= m < positions@.len() ==> (#[trigger] positions@[m]).0 < words@.len()
                    && positions@[m].1 < rows,
            r@ == prefix_letters(words@, positions@, queue_letters as int).take(i as int),
        decreases queue_letters - i,
    {
        let (x, y) = positions[i];
        let l: u64 = (words[x as usize] >> (5u64 * (y as u64))) & 31;
        proof {
            let w = words@[x as int];
            let s: u64 = (5 * (y as u64)) as u64;
            assert((w >> s) & 31 < 32) by (bit_vector);
        }
        let b: u8 = (l as u8) + 65;
        r.push(b);
        proof {
            let pl = prefix_letters(words@, positions@, queue_letters as int);
            assert(b == pl[i as int]);
            assert(pl.take(i + 1) =~= pl.take(i as int).push(pl[i as int]));
        }
        i = i + 1;
    }
    r.push(46);
    r.push(116);
    r.push(120);
    r.push(116);
    proof {
        let pl = prefix_letters(words@, positions@, queue_letters as int);
        assert(pl.take(queue_letters as int) =~= pl);
        assert(r@ =~= pl + txt_suffix());
    }
    r
}

} // verus!
