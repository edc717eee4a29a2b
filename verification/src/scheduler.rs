//! The scheduler.
//!
//! Tasks are weighed once by the leaf count of their first row cursor (a
//! cheap workload estimate) and ordered heaviest first, so that in a fixed
//! worker pool the largest units of work are claimed earliest. The ordering
//! is a throughput heuristic only: `solve_tasks` runs a task list to
//! completion in the order given, and its contract — the sum of the task
//! counts and the concatenation of the task solution lists — does not
//! depend on that order's choice.

use crate::queue::{
    lemma_tasks_count_concat, lemma_tasks_sols_concat, task_views, tasks_count, tasks_sols, Task,
    TaskState,
};
use crate::search::{count_from, find_grids, sol_views, sols_from, state_wf};
use crate::trie::TrieNode;
use itertools::Itertools;
use vstd::prelude::*;

verus! {

/// A task together with its scheduling weight.
pub struct ScheduledTask<'a> {
    pub weight: usize,
    pub task: Task<'a>,
}

/// Relies on itertools' `sorted_by_key` (a stable sort backed by
/// `slice::sort_by_key`): the result holds exactly the input items, ordered
/// by descending weight.
#[verifier::external_body]
fn sort_by_weight_desc<'a>(tasks: Vec<ScheduledTask<'a>>) -> (r: Vec<ScheduledTask<'a>>)
    ensures
        r@.to_multiset() == tasks@.to_multiset(),
        r@.len() == tasks@.len(),
        forall|i: int, j: int| 0 <= i <= j < r@.len() ==> r@[i].weight >= r@[j].weight,
{
    tasks.into_iter().sorted_by_key(|t: &ScheduledTask<'a>| core::cmp::Reverse(t.weight)).collect()
}

/// The mathematical contents of a weighed task list.
pub open spec fn sched_views(s: Seq<ScheduledTask>) -> Seq<TaskState> {
    s.map_values(|st: ScheduledTask| st.task.view_state())
}

/// Mapping to views respects permutation of the weighed tasks.
proof fn lemma_sched_views_multiset(a: Seq<ScheduledTask>, b: Seq<ScheduledTask>)
    requires
        a.to_multiset() == b.to_multiset(),
    ensures
        sched_views(a).to_multiset() == sched_views(b).to_multiset(),
    decreases a.len(),
{
    broadcast use vstd::seq_lib::group_to_multiset_ensures;

    if a.len() == 0 {
        assert(a.to_multiset().len() == a.len());
        assert(b.to_multiset().len() == b.len());
        assert(b.len() == 0);
        assert(sched_views(a).to_multiset() =~= sched_views(b).to_multiset());
    } else {
        assert(a.to_multiset().count(a[0]) > 0);
        assert(b.contains(a[0]));
        let j = choose|j: int| 0 <= j < b.len() && b[j] == a[0];
        assert(a.remove(0).to_multiset() =~= a.to_multiset().remove(a[0]));
        assert(b.remove(j).to_multiset() =~= b.to_multiset().remove(b[j]));
        assert(a.remove(0).to_multiset() =~= b.remove(j).to_multiset());
        lemma_sched_views_multiset(a.remove(0), b.remove(j));
        assert(sched_views(a.remove(0)) =~= sched_views(a).remove(0));
        assert(sched_views(b.remove(j)) =~= sched_views(b).remove(j));
        assert(sched_views(a).remove(0).to_multiset() =~= sched_views(a).to_multiset().remove(
            sched_views(a)[0],
        ));
        assert(sched_views(b).remove(j).to_multiset() =~= sched_views(b).to_multiset().remove(
            sched_views(b)[j],
        ));
        assert(sched_views(a)[0] == sched_views(b)[j]);
        assert(sched_views(a).to_multiset().count(sched_views(a)[0]) > 0);
        assert(sched_views(b).to_multiset().count(sched_views(b)[j]) > 0);
        assert(sched_views(a).to_multiset() =~= sched_views(a).to_multiset().remove(
            sched_views(a)[0],
        ).insert(sched_views(a)[0]));
        assert(sched_views(b).to_multiset() =~= sched_views(b).to_multiset().remove(
            sched_views(b)[j],
        ).insert(sched_views(b)[j]));
        assert(sched_views(a).to_multiset() =~= sched_views(b).to_multiset());
    }
}

/// Weighs every task by the leaf count of its first row cursor and returns
/// the list ordered heaviest first: the result holds one entry per input
/// task (same contents, by the tasks' mathematical views), with its weight.
pub fn order_tasks<'a>(tasks: Vec<Task<'a>>) -> (r: Vec<ScheduledTask<'a>>)
    requires
        forall|i: int| 0 <= i < tasks@.len() ==> (#[trigger] tasks@[i]).nodes_row@.len() > 0,
        forall|i: int| 0 <= i < tasks@.len() ==> (#[trigger] tasks@[i]).nodes_row@[0].wf(),
        forall|i: int|
            0 <= i < tasks@.len() ==> (#[trigger] tasks@[i]).nodes_row@[0].leaf_count()
                <= usize::MAX,
    ensures
        r@.len() == tasks@.len(),
        forall|i: int, j: int| 0 <= i <= j < r@.len() ==> r@[i].weight >= r@[j].weight,
        sched_views(r@).to_multiset() == task_views(tasks@).to_multiset(),
        forall|i: int|
            0 <= i < r@.len() ==> (#[trigger] r@[i]).weight
                == r@[i].task.view_state().rows[0].leaf_count(),
{
    let mut weighted: Vec<ScheduledTask<'a>> = Vec::new();
    let mut i: usize = 0;
    while i < tasks.len()
        invariant
            0 <= i <= tasks@.len(),
            weighted@.len() == i,
            forall|m: int| 0 <= m < tasks@.len() ==> (#[trigger] tasks@[m]).nodes_row@.len() > 0,
            forall|m: int| 0 <= m < tasks@.len() ==> (#[trigger] tasks@[m]).nodes_row@[0].wf(),
            forall|m: int|
                0 <= m < tasks@.len() ==> (#[trigger] tasks@[m]).nodes_row@[0].leaf_count()
                    <= usize::MAX,
            forall|m: int|
                0 <= m < i ==> (#[trigger] weighted@[m]).task.view_state()
                    == tasks@[m].view_state() && weighted@[m].weight
                    == weighted@[m].task.view_state().rows[0].leaf_count(),
        decreases tasks@.len() - i,
    {
        let t = &tasks[i];
        let w = t.nodes_row[0].leaf_nodes();
        let copy = Task {
            words: crate::queue::copy_words(&t.words),
            nodes_row: crate::queue::clone_nodes(&t.nodes_row),
            nodes_col: crate::queue::clone_nodes(&t.nodes_col),
        };
        weighted.push(ScheduledTask { weight: w, task: copy });
        i = i + 1;
    }
    let ghost wv = weighted@;
    let r = sort_by_weight_desc(weighted);
    proof {
        broadcast use vstd::seq_lib::group_to_multiset_ensures;

        lemma_sched_views_multiset(r@, wv);
        assert(sched_views(wv) =~= task_views(tasks@));
        assert forall|i_: int|
            0 <= i_ < r@.len() implies (#[trigger] r@[i_]).weight
            == r@[i_].task.view_state().rows[0].leaf_count() by {
            assert(r@.contains(r@[i_]));
            assert(r@.to_multiset().count(r@[i_]) > 0);
            assert(wv.to_multiset().count(r@[i_]) > 0);
            assert(wv.contains(r@[i_]));
            let j = choose|j: int| 0 <= j < wv.len() && wv[j] == r@[i_];
            assert(wv[j].weight == wv[j].task.view_state().rows[0].leaf_count());
        }
    }
    r
}

/// Removing one task takes exactly its count out of the sum.
proof fn lemma_tasks_count_remove(s: Seq<TaskState>, j: int, ps: Seq<(u8, u8)>, d: int)
    requires
        0 <= j < s.len(),
    ensures
        tasks_count(s, ps, d) == count_from(s[j].rows, s[j].cols, ps, d) + tasks_count(
            s.remove(j),
            ps,
            d,
        ),
{
    assert(s =~= s.take(j) + (seq![s[j]] + s.skip(j + 1)));
    lemma_tasks_count_concat(s.take(j), seq![s[j]] + s.skip(j + 1), ps, d);
    lemma_tasks_count_concat(seq![s[j]], s.skip(j + 1), ps, d);
    assert(seq![s[j]].drop_first() =~= Seq::<TaskState>::empty());
    assert(tasks_count(seq![s[j]].drop_first(), ps, d) == 0);
    assert(tasks_count(seq![s[j]], ps, d) == count_from(s[j].rows, s[j].cols, ps, d));
    assert(s.remove(j) =~= s.take(j) + s.skip(j + 1));
    lemma_tasks_count_concat(s.take(j), s.skip(j + 1), ps, d);
}

/// Scheduling-order law: two task lists holding the same tasks — one the
/// other reordered, as by the weight sort, or by workers of any number
/// claiming and finishing in any order — have the same count sum. The
/// accumulated total depends on the multiset of tasks alone.
pub proof fn lemma_tasks_count_permutation(
    a: Seq<TaskState>,
    b: Seq<TaskState>,
    ps: Seq<(u8, u8)>,
    d: int,
)
    requires
        a.to_multiset() == b.to_multiset(),
    ensures
        tasks_count(a, ps, d) == tasks_count(b, ps, d),
    decreases a.len(),
{
    broadcast use vstd::seq_lib::group_to_multiset_ensures;

    if a.len() == 0 {
        assert(a.to_multiset().len() == a.len());
        assert(b.to_multiset().len() == b.len());
    } else {
        assert(a.to_multiset().count(a[0]) > 0);
        assert(b.contains(a[0]));
        let j = choose|j: int| 0 <= j < b.len() && b[j] == a[0];
        assert(a.remove(0).to_multiset() =~= a.to_multiset().remove(a[0]));
        assert(b.remove(j).to_multiset() =~= b.to_multiset().remove(b[j]));
        lemma_tasks_count_permutation(a.remove(0), b.remove(j), ps, d);
        lemma_tasks_count_remove(b, j, ps, d);
        assert(a.remove(0) =~= a.drop_first());
    }
}

/// Runs every task to completion, in the order given, summing the counts
/// and (when `emit` is set) appending each task's solutions in turn: the
/// total is the sum of the tasks' counts at depth `depth`, and the emitted
/// sequence is the concatenation of their solution sequences, in task
/// order.
pub fn solve_tasks<'a>(
    queue: &Vec<Task<'a>>,
    positions: &Vec<(u8, u8)>,
    depth: usize,
    emit: bool,
    out: &mut Vec<Vec<u64>>,
) -> (total: u64)
    requires
        forall|i: int| 0 <= i < queue@.len() ==> (#[trigger] queue@[i]).wf(positions@),
        depth <= positions@.len(),
        tasks_count(task_views(queue@), positions@, depth as int) <= u64::MAX,
    ensures
        total == tasks_count(task_views(queue@), positions@, depth as int),
        emit ==> sol_views(final(out)@) == sol_views(old(out)@) + tasks_sols(
            task_views(queue@),
            positions@,
            depth as int,
        ),
        !emit ==> final(out)@ == old(out)@,
{
    let ghost tv = task_views(queue@);
    let ghost ps = positions@;
    let ghost d = depth as int;
    let mut total: u64 = 0;
    let mut i: usize = 0;
    while i < queue.len()
        invariant
            0 <= i <= queue@.len(),
            tv == task_views(queue@),
            ps == positions@,
            d == depth as int,
            depth <= ps.len(),
            forall|m: int| 0 <= m < queue@.len() ==> (#[trigger] queue@[m]).wf(ps),
            tasks_count(tv, ps, d) <= u64::MAX,
            total == tasks_count(tv.take(i as int), ps, d),
            emit ==> sol_views(out@) == sol_views(old(out)@) + tasks_sols(
                tv.take(i as int),
                ps,
                d,
            ),
            !emit ==> out@ == old(out)@,
        decreases queue@.len() - i,
    {
        let t = &queue[i];
        let mut ws = crate::queue::copy_words(&t.words);
        let mut rs = crate::queue::clone_nodes(&t.nodes_row);
        let mut cs = crate::queue::clone_nodes(&t.nodes_col);
        let ghost single = seq![tv[i as int]];
        proof {
            assert(tv.take(i + 1) =~= tv.take(i as int) + single);
            assert(tv.take(tv.len() as int) =~= tv);
            assert(tv =~= tv.take(i + 1) + tv.skip(i + 1));
            lemma_tasks_count_concat(tv.take(i as int), single, ps, d);
            lemma_tasks_count_concat(tv.take(i + 1), tv.skip(i + 1), ps, d);
            assert(single.drop_first() =~= Seq::<TaskState>::empty());
            assert(single[0] == tv[i as int]);
            assert(tasks_count(single.drop_first(), ps, d) == 0);
            assert(tasks_sols(single.drop_first(), ps, d) =~= Seq::<Seq<u64>>::empty());
            assert(tasks_count(single, ps, d) == count_from(tv[i as int].rows, tv[i as int].cols, ps, d));
            assert(tv[i as int] == queue@[i as int].view_state());
            assert(state_wf(ws@, rs@, cs@, ps));
            assert(count_from(crate::search::derefs(rs@), crate::search::derefs(cs@), ps, d)
                == count_from(tv[i as int].rows, tv[i as int].cols, ps, d));
        }
        let ghost out_prev = sol_views(out@);
        let c = find_grids(&mut ws, &mut rs, &mut cs, positions, depth, emit, out);
        proof {
            assert(total + c <= u64::MAX);
        }
        total = total + c;
        proof {
            if emit {
                lemma_tasks_sols_concat(tv.take(i as int), single, ps, d);
                assert(tasks_sols(single, ps, d) =~= sols_from(
                    tv[i as int].words,
                    tv[i as int].rows,
                    tv[i as int].cols,
                    ps,
                    d,
                ) + Seq::<Seq<u64>>::empty());
                let a = sols_from(tv[i as int].words, tv[i as int].rows, tv[i as int].cols, ps, d);
                assert(tasks_sols(single, ps, d) =~= a);
                assert(sol_views(out@) == out_prev + a);
                assert((sol_views(old(out)@) + tasks_sols(tv.take(i as int), ps, d)) + a
                    =~= sol_views(old(out)@) + (tasks_sols(tv.take(i as int), ps, d) + a));
                assert(tasks_sols(tv.take(i + 1), ps, d) =~= tasks_sols(tv.take(i as int), ps, d)
                    + a);
            }
        }
        i = i + 1;
    }
    proof {
        assert(tv.take(queue@.len() as int) =~= tv);
    }
    total
}

} // verus!
