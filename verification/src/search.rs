//! The backtracking enumerator.
//!
//! A search state is one packed accumulator per column plus one trie cursor
//! per row and per column. At each cell `(x, y)` of the traversal order a
//! letter is kept only if both the row-`y` cursor and the column-`x` cursor
//! have a child for it; the cursors then descend, the letter is recorded,
//! and everything is restored on backtrack. `count_from` and `sols_from`
//! are the mathematical mirror of this recursion and serve as the single
//! specification that the partitioner and the scheduler are proved against.

use crate::trie::TrieNode;
use vstd::prelude::*;

verus! {

/// The accumulator of column `x` with `letter` recorded for row `y`:
/// letters sit in 5-bit fields, field `y` at bit `5 * y` (wrap-around
/// truncation, which never fires for well-formed states since
/// `5 * y <= 55`).
pub open spec fn place(w: u64, letter: u8, y: u8) -> u64 {
    let v = (letter as u64) << ((5 * (y as u64)) as u64);
    if w + v > u64::MAX {
        (w + v - 0x1_0000_0000_0000_0000) as u64
    } else {
        (w + v) as u64
    }
}

/// The letter recorded in the accumulator `w` for row `y`.
pub open spec fn letter_at(w: u64, y: u8) -> u64 {
    (w >> ((5 * (y as u64)) as u64)) & 31
}

/// The packing law: a letter placed into an empty 5-bit field is read back
/// unchanged, and every other row's field is untouched.
pub proof fn lemma_place_reads_back(w: u64, letter: u8, y: u8, y2: u8)
    requires
        letter < 26,
        y < 12,
        y2 < 12,
        letter_at(w, y) == 0,
    ensures
        letter_at(place(w, letter, y), y) == letter,
        y2 != y ==> letter_at(place(w, letter, y), y2) == letter_at(w, y2),
{
    let l = letter as u64;
    let s = (5 * (y as u64)) as u64;
    let s2 = (5 * (y2 as u64)) as u64;
    assert(w + (l << s) <= u64::MAX ==> {
        &&& ((((w + (l << s)) as u64) >> s) & 31) == l
        &&& (s != s2 ==> ((((w + (l << s)) as u64) >> s2) & 31) == ((w >> s2) & 31))
    }) by (bit_vector)
        requires
            l < 26 && s < 60 && s2 < 60 && s % 5 == 0 && s2 % 5 == 0 && ((w >> s) & 31) == 0;
    assert(w + (l << s) <= u64::MAX) by (bit_vector)
        requires
            l < 26 && s < 60 && ((w >> s) & 31) == 0;
    assert(s % 5 == 0 && s2 % 5 == 0);
    assert(y != y2 ==> s != s2);
}

/// The trie values behind a sequence of cursor references.
pub open spec fn derefs(ns: Seq<&TrieNode>) -> Seq<TrieNode> {
    ns.map_values(|t: &TrieNode| *t)
}

/// Well-formedness of a search state: at most 12 rows (so packed fields fit
/// in 64 bits), one accumulator per column, well-formed cursor tries, and
/// every cell of the traversal order inside the grid.
pub open spec fn state_wf(
    ws: Seq<u64>,
    rs: Seq<&TrieNode>,
    cs: Seq<&TrieNode>,
    ps: Seq<(u8, u8)>,
) -> bool {
    &&& rs.len() <= 12
    &&& ws.len() == cs.len()
    &&& forall|k: int| 0 <= k < rs.len() ==> (#[trigger] rs[k]).wf()
    &&& forall|k: int| 0 <= k < cs.len() ==> (#[trigger] cs[k]).wf()
    &&& forall|k: int|
        0 <= k < ps.len() ==> ((#[trigger] ps[k]).0 < cs.len() && ps[k].1 < rs.len())
}

/// Number of complete grids reachable from a state whose first `pos_i`
/// cells are already fixed: 1 at the end of the order, 0 on an exhausted
/// cursor, else the sum over the letters admitted by both cursors.
pub open spec fn count_from(
    rs: Seq<TrieNode>,
    cs: Seq<TrieNode>,
    ps: Seq<(u8, u8)>,
    pos_i: int,
) -> nat
    decreases ps.len() - pos_i, 27int,
{
    if pos_i < 0 || pos_i >= ps.len() {
        1
    } else {
        let x = ps[pos_i].0 as int;
        let y = ps[pos_i].1 as int;
        if !rs[y].has_children || !cs[x].has_children {
            0
        } else {
            count_letters(rs, cs, ps, pos_i, 0)
        }
    }
}

/// The part of `count_from` contributed by the letters `letter .. 26` at
/// cell `ps[pos_i]`.
pub open spec fn count_letters(
    rs: Seq<TrieNode>,
    cs: Seq<TrieNode>,
    ps: Seq<(u8, u8)>,
    pos_i: int,
    letter: int,
) -> nat
    decreases ps.len() - pos_i, 26 - letter,
{
    if pos_i < 0 || pos_i >= ps.len() || letter < 0 || letter >= 26 {
        0
    } else {
        let x = ps[pos_i].0 as int;
        let y = ps[pos_i].1 as int;
        let here = if rs[y].children@[letter].is_some() && cs[x].children@[letter].is_some() {
            count_from(
                rs.update(y, *rs[y].children@[letter]->0),
                cs.update(x, *cs[x].children@[letter]->0),
                ps,
                pos_i + 1,
            )
        } else {
            0
        };
        here + count_letters(rs, cs, ps, pos_i, letter + 1)
    }
}

/// The solutions (final accumulator vectors) reachable from a state, in the
/// order the search visits them.
pub open spec fn sols_from(
    ws: Seq<u64>,
    rs: Seq<TrieNode>,
    cs: Seq<TrieNode>,
    ps: Seq<(u8, u8)>,
    pos_i: int,
) -> Seq<Seq<u64>>
    decreases ps.len() - pos_i, 27int,
{
    if pos_i < 0 || pos_i >= ps.len() {
        seq![ws]
    } else {
        let x = ps[pos_i].0 as int;
        let y = ps[pos_i].1 as int;
        if !rs[y].has_children || !cs[x].has_children {
            Seq::empty()
        } else {
            sols_letters(ws, rs, cs, ps, pos_i, 0)
        }
    }
}

/// The part of `sols_from` contributed by the letters `letter .. 26`.
pub open spec fn sols_letters(
    ws: Seq<u64>,
    rs: Seq<TrieNode>,
    cs: Seq<TrieNode>,
    ps: Seq<(u8, u8)>,
    pos_i: int,
    letter: int,
) -> Seq<Seq<u64>>
    decreases ps.len() - pos_i, 26 - letter,
{
    if pos_i < 0 || pos_i >= ps.len() || letter < 0 || letter >= 26 {
        Seq::empty()
    } else {
        let x = ps[pos_i].0 as int;
        let y = ps[pos_i].1 as int;
        let here = if rs[y].children@[letter].is_some() && cs[x].children@[letter].is_some() {
            sols_from(
                ws.update(x, place(ws[x], letter as u8, y as u8)),
                rs.update(y, *rs[y].children@[letter]->0),
                cs.update(x, *cs[x].children@[letter]->0),
                ps,
                pos_i + 1,
            )
        } else {
            Seq::empty()
        };
        here + sols_letters(ws, rs, cs, ps, pos_i, letter + 1)
    }
}

/// The count is the number of solutions: the two mirrors of the search
/// agree, so counting-only runs and emitting runs describe the same set.
pub proof fn lemma_count_is_sols_len(
    ws: Seq<u64>,
    rs: Seq<TrieNode>,
    cs: Seq<TrieNode>,
    ps: Seq<(u8, u8)>,
    pos_i: int,
)
    ensures
        count_from(rs, cs, ps, pos_i) == sols_from(ws, rs, cs, ps, pos_i).len(),
    decreases ps.len() - pos_i, 27int,
{
    if 0 <= pos_i < ps.len() {
        let x = ps[pos_i].0 as int;
        let y = ps[pos_i].1 as int;
        if rs[y].has_children && cs[x].has_children {
            lemma_count_letters_is_sols_len(ws, rs, cs, ps, pos_i, 0);
        }
    }
}

/// Letter-wise form of `lemma_count_is_sols_len`.
proof fn lemma_count_letters_is_sols_len(
    ws: Seq<u64>,
    rs: Seq<TrieNode>,
    cs: Seq<TrieNode>,
    ps: Seq<(u8, u8)>,
    pos_i: int,
    letter: int,
)
    ensures
        count_letters(rs, cs, ps, pos_i, letter) == sols_letters(
            ws,
            rs,
            cs,
            ps,
            pos_i,
            letter,
        ).len(),
    decreases ps.len() - pos_i, 26 - letter,
{
    if 0 <= pos_i < ps.len() && 0 <= letter < 26 {
        let x = ps[pos_i].0 as int;
        let y = ps[pos_i].1 as int;
        lemma_count_letters_is_sols_len(ws, rs, cs, ps, pos_i, letter + 1);
        if rs[y].children@[letter].is_some() && cs[x].children@[letter].is_some() {
            lemma_count_is_sols_len(
                ws.update(x, place(ws[x], letter as u8, y as u8)),
                rs.update(y, *rs[y].children@[letter]->0),
                cs.update(x, *cs[x].children@[letter]->0),
                ps,
                pos_i + 1,
            );
        }
    }
}

/// The views of a collected list of solutions.
pub open spec fn sol_views(s: Seq<Vec<u64>>) -> Seq<Seq<u64>> {
    s.map_values(|v: Vec<u64>| v@)
}

/// Dereferencing commutes with a point update of the cursor array.
pub proof fn lemma_derefs_update(ns: Seq<&TrieNode>, i: int, v: &TrieNode)
    requires
        0 <= i < ns.len(),
    ensures
        derefs(ns.update(i, v)) == derefs(ns).update(i, *v),
{
    assert(derefs(ns.update(i, v)) =~= derefs(ns).update(i, *v));
}

/// A copy of the accumulator vector.
fn clone_words(words: &Vec<u64>) -> (r: Vec<u64>)
    ensures
        r@ == words@,
{
    let mut r: Vec<u64> = Vec::new();
    let mut i: usize = 0;
    while i < words.len()
        invariant
            0 <= i <= words@.len(),
            r@ == words@.take(i as int),
        decreases words@.len() - i,
    {
        r.push(words[i]);
        proof {
            assert(words@.take(i + 1) =~= words@.take(i as int).push(words@[i as int]));
        }
        i = i + 1;
    }
    proof {
        assert(words@.take(words@.len() as int) =~= words@);
    }
    r
}

/// Completes the cells `positions[pos_i ..]` of a partial grid by
/// backtracking over the letters admitted by both cursors at each cell.
/// Returns the number of completions; when `emit` is set it also appends
/// every completed accumulator vector to `out`, in search order. The state
/// is restored on return.
pub fn find_grids<'a>(
    words: &mut Vec<u64>,
    nodes_row: &mut Vec<&'a TrieNode>,
    nodes_col: &mut Vec<&'a TrieNode>,
    positions: &Vec<(u8, u8)>,
    pos_i: usize,
    emit: bool,
    out: &mut Vec<Vec<u64>>,
) -> (count: u64)
    requires
        state_wf(old(words)@, old(nodes_row)@, old(nodes_col)@, positions@),
        pos_i <= positions@.len(),
        count_from(
            derefs(old(nodes_row)@),
            derefs(old(nodes_col)@),
            positions@,
            pos_i as int,
        ) <= u64::MAX,
    ensures
        final(words)@ == old(words)@,
        final(nodes_row)@ == old(nodes_row)@,
        final(nodes_col)@ == old(nodes_col)@,
        count == count_from(
            derefs(old(nodes_row)@),
            derefs(old(nodes_col)@),
            positions@,
            pos_i as int,
        ),
        emit ==> sol_views(final(out)@) == sol_views(old(out)@) + sols_from(
            old(words)@,
            derefs(old(nodes_row)@),
            derefs(old(nodes_col)@),
            positions@,
            pos_i as int,
        ),
        !emit ==> final(out)@ == old(out)@,
    decreases positions@.len() - pos_i,
{
    let ghost ws0 = words@;
    let ghost nr0 = nodes_row@;
    let ghost nc0 = nodes_col@;
    let ghost rsv = derefs(nr0);
    let ghost csv = derefs(nc0);
    let ghost ps = positions@;

    if pos_i >= positions.len() {
        if emit {
            let sol = clone_words(words);
            out.push(sol);
            proof {
                assert(sol_views(out@) =~= sol_views(old(out)@) + sols_from(
                    ws0,
                    rsv,
                    csv,
                    ps,
                    pos_i as int,
                ));
            }
        }
        return 1;
    }

    let (x, y) = positions[pos_i];
    let x_us = x as usize;
    let y_us = y as usize;
    let row_node: &TrieNode = nodes_row[y_us];
    let col_node: &TrieNode = nodes_col[x_us];
    proof {
        assert(rsv[y as int] == *nr0[y as int]);
        assert(csv[x as int] == *nc0[x as int]);
    }

    if !row_node.has_children || !col_node.has_children {
        proof {
            if emit {
                assert(sol_views(out@) =~= sol_views(old(out)@) + sols_from(
                    ws0,
                    rsv,
                    csv,
                    ps,
                    pos_i as int,
                ));
            }
        }
        return 0;
    }

    proof {
        assert(row_node.node_wf());
        assert(col_node.node_wf());
        assert(count_from(rsv, csv, ps, pos_i as int) == count_letters(
            rsv,
            csv,
            ps,
            pos_i as int,
            0,
        ));
    }

    let plen: usize = positions.len();
    let mut total: u64 = 0;
    let mut letter: u8 = 0;
    while letter < 26
        invariant
            0 <= letter <= 26,
            words@ == ws0,
            nodes_row@ == nr0,
            nodes_col@ == nc0,
            ps == positions@,
            plen == ps.len(),
            rsv == derefs(nr0),
            csv == derefs(nc0),
            state_wf(ws0, nr0, nc0, ps),
            pos_i < ps.len(),
            x == ps[pos_i as int].0,
            y == ps[pos_i as int].1,
            x_us == x as usize,
            y_us == y as usize,
            x_us < nc0.len(),
            y_us < nr0.len(),
            row_node == nr0[y as int],
            col_node == nc0[x as int],
            rsv[y as int].has_children,
            csv[x as int].has_children,
            count_from(rsv, csv, ps, pos_i as int) <= u64::MAX,
            total + count_letters(rsv, csv, ps, pos_i as int, letter as int) == count_from(
                rsv,
                csv,
                ps,
                pos_i as int,
            ),
            emit ==> sol_views(out@) + sols_letters(ws0, rsv, csv, ps, pos_i as int, letter as int)
                == sol_views(old(out)@) + sols_letters(ws0, rsv, csv, ps, pos_i as int, 0),
            !emit ==> out@ == old(out)@,
        decreases 26 - letter,
    {
        proof {
            assert((ps[pos_i as int]).0 < nc0.len() && (ps[pos_i as int]).1 < nr0.len());
        }
        let li = letter as usize;
        let mut have_both = false;
        let mut rc: &TrieNode = row_node;
        let mut cc: &TrieNode = col_node;
        match &row_node.children[li] {
            Some(b) => {
                match &col_node.children[li] {
                    Some(b2) => {
                        have_both = true;
                        rc = &**b;
                        cc = &**b2;
                    }
                    None => {}
                }
            }
            None => {}
        }
        proof {
            assert(have_both <==> (rsv[y as int].children@[letter as int].is_some()
                && csv[x as int].children@[letter as int].is_some()));
        }
        if have_both {
            proof {
                assert(rc == row_node.children@[letter as int]->0);
                assert(cc == col_node.children@[letter as int]->0);
                assert(rc.wf() && cc.wf());
            }
            let ghost rsv2 = rsv.update(y as int, *rc);
            let ghost csv2 = csv.update(x as int, *cc);
            let ghost branch = count_from(rsv2, csv2, ps, pos_i + 1);
            proof {
                assert(count_letters(rsv, csv, ps, pos_i as int, letter as int) == branch
                    + count_letters(rsv, csv, ps, pos_i as int, letter as int + 1));
            }
            let old_row: &TrieNode = nodes_row[y_us];
            let old_col: &TrieNode = nodes_col[x_us];
            let old_word: u64 = words[x_us];
            nodes_row[y_us] = rc;
            nodes_col[x_us] = cc;
            let shifted: u64 = (letter as u64) << (5u64 * (y as u64));
            let new_word: u64 = old_word.wrapping_add(shifted);
            words[x_us] = new_word;
            proof {
                lemma_derefs_update(nr0, y as int, rc);
                lemma_derefs_update(nc0, x as int, cc);
                assert(new_word == place(ws0[x as int], letter, y));
                assert(words@ == ws0.update(x as int, place(ws0[x as int], letter, y)));
                assert(state_wf(words@, nodes_row@, nodes_col@, ps)) by {
                    assert(forall|k: int|
                        0 <= k < nodes_row@.len() ==> (#[trigger] nodes_row@[k]).wf());
                    assert(forall|k: int|
                        0 <= k < nodes_col@.len() ==> (#[trigger] nodes_col@[k]).wf());
                }
                assert(branch <= count_letters(rsv, csv, ps, pos_i as int, letter as int));
            }
            let ghost out_before = sol_views(out@);
            let c = find_grids(words, nodes_row, nodes_col, positions, pos_i + 1, emit, out);
            proof {
                assert(c == branch);
                assert(total + c <= u64::MAX);
            }
            total = total + c;
            nodes_row[y_us] = old_row;
            nodes_col[x_us] = old_col;
            words[x_us] = old_word;
            proof {
                assert(nodes_row@ =~= nr0);
                assert(nodes_col@ =~= nc0);
                assert(words@ =~= ws0);
                if emit {
                    let a = sols_from(
                        ws0.update(x as int, place(ws0[x as int], letter, y)),
                        rsv2,
                        csv2,
                        ps,
                        pos_i + 1,
                    );
                    assert(sol_views(out@) == out_before + a);
                    assert(sols_letters(ws0, rsv, csv, ps, pos_i as int, letter as int) == a
                        + sols_letters(ws0, rsv, csv, ps, pos_i as int, letter as int + 1));
                    assert((out_before + a) + sols_letters(
                        ws0,
                        rsv,
                        csv,
                        ps,
                        pos_i as int,
                        letter as int + 1,
                    ) =~= out_before + (a + sols_letters(
                        ws0,
                        rsv,
                        csv,
                        ps,
                        pos_i as int,
                        letter as int + 1,
                    )));
                }
            }
        } else {
            proof {
                assert(count_letters(rsv, csv, ps, pos_i as int, letter as int) == count_letters(
                    rsv,
                    csv,
                    ps,
                    pos_i as int,
                    letter as int + 1,
                ));
                assert(sols_letters(ws0, rsv, csv, ps, pos_i as int, letter as int) == sols_letters(
                    ws0,
                    rsv,
                    csv,
                    ps,
                    pos_i as int,
                    letter as int + 1,
                ));
            }
        }
        letter = letter + 1;
    }
    proof {
        assert(count_letters(rsv, csv, ps, pos_i as int, 26) == 0);
        if emit {
            assert(sols_letters(ws0, rsv, csv, ps, pos_i as int, 26) =~= Seq::<Seq<u64>>::empty());
            assert(sol_views(out@) + Seq::<Seq<u64>>::empty() =~= sol_views(out@));
            assert(sols_from(ws0, rsv, csv, ps, pos_i as int) == sols_letters(
                ws0,
                rsv,
                csv,
                ps,
                pos_i as int,
                0,
            ));
        }
    }
    total
}

} // verus!
