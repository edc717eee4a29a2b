//! The task partitioner.
//!
//! A shallow bounded backtracking pass over the first `queue_letters` cells
//! of the traversal order enumerates every partial assignment consistent
//! with both tries; each one becomes an independent task carrying its own
//! accumulator and cursor arrays. `lemma_queue_partition` is the partition
//! law: the tasks split the search space exactly — their counts sum to the
//! whole count, and their solution sequences concatenate to the whole
//! solution sequence, for every depth.

use crate::search::{
    count_from, count_letters, derefs, lemma_derefs_update, place, sols_from, sols_letters,
    state_wf,
};
use crate::trie::TrieNode;
use vstd::prelude::*;

verus! {

/// One unit of search work: a partially filled grid and the cursors
/// consistent with it. The cursors borrow the shared immutable tries.
pub struct Task<'a> {
    pub words: Vec<u64>,
    pub nodes_row: Vec<&'a TrieNode>,
    pub nodes_col: Vec<&'a TrieNode>,
}

/// The mathematical content of a task.
pub ghost struct TaskState {
    pub words: Seq<u64>,
    pub rows: Seq<TrieNode>,
    pub cols: Seq<TrieNode>,
}

impl<'a> Task<'a> {
    /// Its mathematical content: the accumulator and the cursor values.
    pub open spec fn view_state(self) -> TaskState {
        TaskState {
            words: self.words@,
            rows: derefs(self.nodes_row@),
            cols: derefs(self.nodes_col@),
        }
    }

    /// Task well-formedness, relative to the traversal order it is for.
    pub open spec fn wf(self, ps: Seq<(u8, u8)>) -> bool {
        state_wf(self.words@, self.nodes_row@, self.nodes_col@, ps)
    }
}

/// The contents of a task list.
pub open spec fn task_views(ts: Seq<Task>) -> Seq<TaskState> {
    ts.map_values(|t: Task| t.view_state())
}

/// Sum of the completion counts of the tasks, all taken at depth `depth`.
pub open spec fn tasks_count(ts: Seq<TaskState>, ps: Seq<(u8, u8)>, depth: int) -> nat
    decreases ts.len(),
{
    if ts.len() == 0 {
        0
    } else {
        count_from(ts[0].rows, ts[0].cols, ps, depth) + tasks_count(ts.drop_first(), ps, depth)
    }
}

/// Concatenation of the solution sequences of the tasks, in task order.
pub open spec fn tasks_sols(ts: Seq<TaskState>, ps: Seq<(u8, u8)>, depth: int) -> Seq<Seq<u64>>
    decreases ts.len(),
{
    if ts.len() == 0 {
        Seq::empty()
    } else {
        sols_from(ts[0].words, ts[0].rows, ts[0].cols, ps, depth) + tasks_sols(
            ts.drop_first(),
            ps,
            depth,
        )
    }
}

/// The task states produced by walking the next `k` cells from a state:
/// one task per partial assignment admitted by both tries.
pub open spec fn queue_from(
    ws: Seq<u64>,
    rs: Seq<TrieNode>,
    cs: Seq<TrieNode>,
    ps: Seq<(u8, u8)>,
    pos_i: int,
    k: int,
) -> Seq<TaskState>
    decreases k, 27int,
{
    if k <= 0 || pos_i < 0 || pos_i >= ps.len() {
        seq![TaskState { words: ws, rows: rs, cols: cs }]
    } else {
        let x = ps[pos_i].0 as int;
        let y = ps[pos_i].1 as int;
        if !rs[y].has_children || !cs[x].has_children {
            Seq::empty()
        } else {
            queue_letters_from(ws, rs, cs, ps, pos_i, k, 0)
        }
    }
}

/// The part of `queue_from` contributed by the letters `letter .. 26`.
pub open spec fn queue_letters_from(
    ws: Seq<u64>,
    rs: Seq<TrieNode>,
    cs: Seq<TrieNode>,
    ps: Seq<(u8, u8)>,
    pos_i: int,
    k: int,
    letter: int,
) -> Seq<TaskState>
    decreases k, 26 - letter,
{
    if k <= 0 || pos_i < 0 || pos_i >= ps.len() || letter < 0 || letter >= 26 {
        Seq::empty()
    } else {
        let x = ps[pos_i].0 as int;
        let y = ps[pos_i].1 as int;
        let here = if rs[y].children@[letter].is_some() && cs[x].children@[letter].is_some() {
            queue_from(
                ws.update(x, place(ws[x], letter as u8, y as u8)),
                rs.update(y, *rs[y].children@[letter]->0),
                cs.update(x, *cs[x].children@[letter]->0),
                ps,
                pos_i + 1,
                k - 1,
            )
        } else {
            Seq::empty()
        };
        here + queue_letters_from(ws, rs, cs, ps, pos_i, k, letter + 1)
    }
}

/// The depth at which every task produced from `pos_i` with budget `k`
/// stands: `k` more cells, cut off at the end of the order.
pub open spec fn depth_after(ps: Seq<(u8, u8)>, pos_i: int, k: int) -> int {
    let kk = if k < 0 {
        0
    } else {
        k
    };
    if pos_i + kk <= ps.len() {
        pos_i + kk
    } else {
        ps.len() as int
    }
}

/// `tasks_count` distributes over concatenation.
pub proof fn lemma_tasks_count_concat(a: Seq<TaskState>, b: Seq<TaskState>, ps: Seq<(u8, u8)>, d: int)
    ensures
        tasks_count(a + b, ps, d) == tasks_count(a, ps, d) + tasks_count(b, ps, d),
    decreases a.len(),
{
    if a.len() == 0 {
        assert(a + b =~= b);
    } else {
        assert((a + b).drop_first() =~= a.drop_first() + b);
        assert((a + b)[0] == a[0]);
        lemma_tasks_count_concat(a.drop_first(), b, ps, d);
    }
}

/// `tasks_sols` distributes over concatenation.
pub proof fn lemma_tasks_sols_concat(a: Seq<TaskState>, b: Seq<TaskState>, ps: Seq<(u8, u8)>, d: int)
    ensures
        tasks_sols(a + b, ps, d) =~= tasks_sols(a, ps, d) + tasks_sols(b, ps, d),
    decreases a.len(),
{
    if a.len() == 0 {
        assert(a + b =~= b);
        assert(tasks_sols(a, ps, d) + tasks_sols(b, ps, d) =~= tasks_sols(b, ps, d));
    } else {
        assert((a + b).drop_first() =~= a.drop_first() + b);
        assert((a + b)[0] == a[0]);
        lemma_tasks_sols_concat(a.drop_first(), b, ps, d);
        assert((sols_from(a[0].words, a[0].rows, a[0].cols, ps, d) + tasks_sols(
            a.drop_first(),
            ps,
            d,
        )) + tasks_sols(b, ps, d) =~= sols_from(a[0].words, a[0].rows, a[0].cols, ps, d) + (
        tasks_sols(a.drop_first(), ps, d) + tasks_sols(b, ps, d)));
    }
}

/// A copy of a cursor array (the references are shared, the tries are not
/// copied).
pub fn clone_nodes<'a>(ns: &Vec<&'a TrieNode>) -> (r: Vec<&'a TrieNode>)
    ensures
        r@ == ns@,
{
    let mut r: Vec<&'a TrieNode> = Vec::new();
    let mut i: usize = 0;
    while i < ns.len()
        invariant
            0 <= i <= ns@.len(),
            r@ == ns@.take(i as int),
        decreases ns@.len() - i,
    {
        r.push(ns[i]);
        proof {
            assert(ns@.take(i + 1) =~= ns@.take(i as int).push(ns@[i as int]));
        }
        i = i + 1;
    }
    proof {
        assert(ns@.take(ns@.len() as int) =~= ns@);
    }
    r
}

/// A copy of the accumulator vector.
pub fn copy_words(words: &Vec<u64>) -> (r: Vec<u64>)
    ensures
        r@ == words@,
{
    let mut r: Vec<u64> = Vec::new();
    let mut i: usize = 0;
    while i < words.len()
        invariant
            0 <= i <= words@.len(),
            r@ == words@.take(i as int),
        decreases words@.len() - i,
    {
        r.push(words[i]);
        proof {
            assert(words@.take(i + 1) =~= words@.take(i as int).push(words@[i as int]));
        }
        i = i + 1;
    }
    proof {
        assert(words@.take(words@.len() as int) =~= words@);
    }
    r
}

/// Walks the first `queue_letters` still-open cells of the traversal order
/// and appends one task per partial assignment admitted by both tries, in
/// enumeration order. The state is restored on return.
pub fn generate_queue<'a>(
    words: &mut Vec<u64>,
    nodes_row: &mut Vec<&'a TrieNode>,
    nodes_col: &mut Vec<&'a TrieNode>,
    positions: &Vec<(u8, u8)>,
    pos_i: usize,
    queue_letters: usize,
    queue: &mut Vec<Task<'a>>,
)
    requires
        state_wf(old(words)@, old(nodes_row)@, old(nodes_col)@, positions@),
        pos_i <= positions@.len(),
    ensures
        final(words)@ == old(words)@,
        final(nodes_row)@ == old(nodes_row)@,
        final(nodes_col)@ == old(nodes_col)@,
        task_views(final(queue)@) == task_views(old(queue)@) + queue_from(
            old(words)@,
            derefs(old(nodes_row)@),
            derefs(old(nodes_col)@),
            positions@,
            pos_i as int,
            queue_letters as int,
        ),
        final(queue)@.len() >= old(queue)@.len(),
        forall|i: int| 0 <= i < old(queue)@.len() ==> final(queue)@[i] == old(queue)@[i],
        forall|i: int|
            old(queue)@.len() <= i < final(queue)@.len()
                ==> (#[trigger] final(queue)@[i]).wf(positions@),
    decreases queue_letters,
{
    let ghost ws0 = words@;
    let ghost nr0 = nodes_row@;
    let ghost nc0 = nodes_col@;
    let ghost rsv = derefs(nr0);
    let ghost csv = derefs(nc0);
    let ghost ps = positions@;

    if queue_letters == 0 || pos_i >= positions.len() {
        let t = Task {
            words: copy_words(words),
            nodes_row: clone_nodes(nodes_row),
            nodes_col: clone_nodes(nodes_col),
        };
        proof {
            assert(t.view_state() == (TaskState { words: ws0, rows: rsv, cols: csv }));
            assert(t.wf(ps));
        }
        queue.push(t);
        proof {
            assert(task_views(queue@) =~= task_views(old(queue)@) + queue_from(
                ws0,
                rsv,
                csv,
                ps,
                pos_i as int,
                queue_letters as int,
            ));
        }
        return ;
    }

    let (x, y) = positions[pos_i];
    let x_us = x as usize;
    let y_us = y as usize;
    let row_node: &TrieNode = nodes_row[y_us];
    let col_node: &TrieNode = nodes_col[x_us];
    proof {
        assert(rsv[y as int] == *nr0[y as int]);
        assert(csv[x as int] == *nc0[x as int]);
    }

    if !row_node.has_children || !col_node.has_children {
        proof {
            assert(task_views(queue@) =~= task_views(old(queue)@) + queue_from(
                ws0,
                rsv,
                csv,
                ps,
                pos_i as int,
                queue_letters as int,
            ));
        }
        return ;
    }

    proof {
        assert(row_node.node_wf());
        assert(col_node.node_wf());
    }

    let plen: usize = positions.len();
    let ghost k = queue_letters as int;
    let ghost q0 = task_views(old(queue)@);
    let mut letter: u8 = 0;
    while letter < 26
        invariant
            0 <= letter <= 26,
            words@ == ws0,
            nodes_row@ == nr0,
            nodes_col@ == nc0,
            ps == positions@,
            plen == ps.len(),
            k == queue_letters as int,
            queue_letters >= 1,
            rsv == derefs(nr0),
            csv == derefs(nc0),
            state_wf(ws0, nr0, nc0, ps),
            pos_i < ps.len(),
            x == ps[pos_i as int].0,
            y == ps[pos_i as int].1,
            x_us == x as usize,
            y_us == y as usize,
            x_us < nc0.len(),
            y_us < nr0.len(),
            row_node == nr0[y as int],
            col_node == nc0[x as int],
            rsv[y as int].has_children,
            csv[x as int].has_children,
            q0 == task_views(old(queue)@),
            old(queue)@.len() <= queue@.len(),
            forall|i: int| 0 <= i < old(queue)@.len() ==> queue@[i] == old(queue)@[i],
            task_views(queue@) + queue_letters_from(ws0, rsv, csv, ps, pos_i as int, k, letter as int)
                == q0 + queue_letters_from(ws0, rsv, csv, ps, pos_i as int, k, 0),
            forall|i: int|
                old(queue)@.len() <= i < queue@.len() ==> (#[trigger] queue@[i]).wf(ps),
        decreases 26 - letter,
    {
        proof {
            assert((ps[pos_i as int]).0 < nc0.len() && (ps[pos_i as int]).1 < nr0.len());
        }
        let li = letter as usize;
        let mut have_both = false;
        let mut rc: &TrieNode = row_node;
        let mut cc: &TrieNode = col_node;
        match &row_node.children[li] {
            Some(b) => {
                match &col_node.children[li] {
                    Some(b2) => {
                        have_both = true;
                        rc = &**b;
                        cc = &**b2;
                    }
                    None => {}
                }
            }
            None => {}
        }
        proof {
            assert(have_both <==> (rsv[y as int].children@[letter as int].is_some()
                && csv[x as int].children@[letter as int].is_some()));
        }
        if have_both {
            proof {
                assert(rc == row_node.children@[letter as int]->0);
                assert(cc == col_node.children@[letter as int]->0);
                assert(rc.wf() && cc.wf());
            }
            let ghost rsv2 = rsv.update(y as int, *rc);
            let ghost csv2 = csv.update(x as int, *cc);
            let old_row: &TrieNode = nodes_row[y_us];
            let old_col: &TrieNode = nodes_col[x_us];
            let old_word: u64 = words[x_us];
            nodes_row[y_us] = rc;
            nodes_col[x_us] = cc;
            let shifted: u64 = (letter as u64) << (5u64 * (y as u64));
            let new_word: u64 = old_word.wrapping_add(shifted);
            words[x_us] = new_word;
            proof {
                lemma_derefs_update(nr0, y as int, rc);
                lemma_derefs_update(nc0, x as int, cc);
                assert(new_word == place(ws0[x as int], letter, y));
                assert(words@ == ws0.update(x as int, place(ws0[x as int], letter, y)));
                assert(state_wf(words@, nodes_row@, nodes_col@, ps)) by {
                    assert(forall|m: int|
                        0 <= m < nodes_row@.len() ==> (#[trigger] nodes_row@[m]).wf());
                    assert(forall|m: int|
                        0 <= m < nodes_col@.len() ==> (#[trigger] nodes_col@[m]).wf());
                }
            }
            let ghost qv_before = task_views(queue@);
            generate_queue(
                words,
                nodes_row,
                nodes_col,
                positions,
                pos_i + 1,
                queue_letters - 1,
                queue,
            );
            nodes_row[y_us] = old_row;
            nodes_col[x_us] = old_col;
            words[x_us] = old_word;
            proof {
                assert(nodes_row@ =~= nr0);
                assert(nodes_col@ =~= nc0);
                assert(words@ =~= ws0);
                let a = queue_from(
                    ws0.update(x as int, place(ws0[x as int], letter, y)),
                    rsv2,
                    csv2,
                    ps,
                    pos_i + 1,
                    k - 1,
                );
                assert(task_views(queue@) == qv_before + a);
                assert(queue_letters_from(ws0, rsv, csv, ps, pos_i as int, k, letter as int) == a
                    + queue_letters_from(ws0, rsv, csv, ps, pos_i as int, k, letter as int + 1));
                assert((qv_before + a) + queue_letters_from(
                    ws0,
                    rsv,
                    csv,
                    ps,
                    pos_i as int,
                    k,
                    letter as int + 1,
                ) =~= qv_before + (a + queue_letters_from(
                    ws0,
                    rsv,
                    csv,
                    ps,
                    pos_i as int,
                    k,
                    letter as int + 1,
                )));
            }
        } else {
            proof {
                assert(queue_letters_from(ws0, rsv, csv, ps, pos_i as int, k, letter as int)
                    =~= Seq::<TaskState>::empty() + queue_letters_from(
                    ws0,
                    rsv,
                    csv,
                    ps,
                    pos_i as int,
                    k,
                    letter as int + 1,
                ));
                assert(Seq::<TaskState>::empty() + queue_letters_from(
                    ws0,
                    rsv,
                    csv,
                    ps,
                    pos_i as int,
                    k,
                    letter as int + 1,
                ) =~= queue_letters_from(ws0, rsv, csv, ps, pos_i as int, k, letter as int + 1));
            }
        }
        letter = letter + 1;
    }
    proof {
        assert(queue_letters_from(ws0, rsv, csv, ps, pos_i as int, k, 26)
            =~= Seq::<TaskState>::empty());
        assert(task_views(queue@) + Seq::<TaskState>::empty() =~= task_views(queue@));
        assert(queue_from(ws0, rsv, csv, ps, pos_i as int, k) == queue_letters_from(
            ws0,
            rsv,
            csv,
            ps,
            pos_i as int,
            k,
            0,
        ));
    }
}

/// The partition law: the tasks carved out of a state cover its search
/// space exactly. Their counts sum to the state's count and their solution
/// sequences concatenate, in order, to the state's solution sequence — no
/// duplicates, no omissions — for every budget `k`.
pub proof fn lemma_queue_partition(
    ws: Seq<u64>,
    rs: Seq<TrieNode>,
    cs: Seq<TrieNode>,
    ps: Seq<(u8, u8)>,
    pos_i: int,
    k: int,
)
    requires
        0 <= pos_i <= ps.len(),
    ensures
        tasks_count(queue_from(ws, rs, cs, ps, pos_i, k), ps, depth_after(ps, pos_i, k))
            == count_from(rs, cs, ps, pos_i),
        tasks_sols(queue_from(ws, rs, cs, ps, pos_i, k), ps, depth_after(ps, pos_i, k))
            =~= sols_from(ws, rs, cs, ps, pos_i),
    decreases k, 27int,
{
    let d = depth_after(ps, pos_i, k);
    if k <= 0 || pos_i >= ps.len() {
        let t = TaskState { words: ws, rows: rs, cols: cs };
        let q = queue_from(ws, rs, cs, ps, pos_i, k);
        assert(q =~= seq![t]);
        assert(q.drop_first() =~= Seq::<TaskState>::empty());
        assert(q[0] == t);
        assert(tasks_count(q.drop_first(), ps, d) == 0);
        assert(tasks_sols(q.drop_first(), ps, d) =~= Seq::<Seq<u64>>::empty());
        assert(d == pos_i);
        assert(tasks_count(q, ps, d) == count_from(rs, cs, ps, d));
        assert(tasks_sols(q, ps, d) =~= sols_from(ws, rs, cs, ps, d) + Seq::<Seq<u64>>::empty());
        assert(sols_from(ws, rs, cs, ps, d) + Seq::<Seq<u64>>::empty() =~= sols_from(
            ws,
            rs,
            cs,
            ps,
            d,
        ));
    } else {
        let x = ps[pos_i].0 as int;
        let y = ps[pos_i].1 as int;
        if !rs[y].has_children || !cs[x].has_children {
            assert(queue_from(ws, rs, cs, ps, pos_i, k) =~= Seq::<TaskState>::empty());
        } else {
            lemma_queue_letters_partition(ws, rs, cs, ps, pos_i, k, 0);
        }
    }
}

/// Letter-wise form of the partition law.
proof fn lemma_queue_letters_partition(
    ws: Seq<u64>,
    rs: Seq<TrieNode>,
    cs: Seq<TrieNode>,
    ps: Seq<(u8, u8)>,
    pos_i: int,
    k: int,
    letter: int,
)
    requires
        0 <= pos_i < ps.len(),
        k > 0,
        0 <= letter,
    ensures
        tasks_count(
            queue_letters_from(ws, rs, cs, ps, pos_i, k, letter),
            ps,
            depth_after(ps, pos_i, k),
        ) == count_letters(rs, cs, ps, pos_i, letter),
        tasks_sols(
            queue_letters_from(ws, rs, cs, ps, pos_i, k, letter),
            ps,
            depth_after(ps, pos_i, k),
        ) =~= sols_letters(ws, rs, cs, ps, pos_i, letter),
    decreases k, 26 - letter,
{
    let d = depth_after(ps, pos_i, k);
    if letter >= 26 {
        assert(queue_letters_from(ws, rs, cs, ps, pos_i, k, letter)
            =~= Seq::<TaskState>::empty());
    } else {
        let x = ps[pos_i].0 as int;
        let y = ps[pos_i].1 as int;
        lemma_queue_letters_partition(ws, rs, cs, ps, pos_i, k, letter + 1);
        let rest = queue_letters_from(ws, rs, cs, ps, pos_i, k, letter + 1);
        if rs[y].children@[letter].is_some() && cs[x].children@[letter].is_some() {
            let ws2 = ws.update(x, place(ws[x], letter as u8, y as u8));
            let rs2 = rs.update(y, *rs[y].children@[letter]->0);
            let cs2 = cs.update(x, *cs[x].children@[letter]->0);
            lemma_queue_partition(ws2, rs2, cs2, ps, pos_i + 1, k - 1);
            assert(depth_after(ps, pos_i + 1, k - 1) == d);
            let here = queue_from(ws2, rs2, cs2, ps, pos_i + 1, k - 1);
            lemma_tasks_count_concat(here, rest, ps, d);
            lemma_tasks_sols_concat(here, rest, ps, d);
        } else {
            let here = Seq::<TaskState>::empty();
            lemma_tasks_count_concat(here, rest, ps, d);
            lemma_tasks_sols_concat(here, rest, ps, d);
            assert(here + rest =~= rest);
        }
    }
}

} // verus!
