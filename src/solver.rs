use std::collections::HashMap;
use vstd::prelude::*;

use crate::grid::{
    candidate_list, complete, consistent, extends, grid_wf, is_candidate, is_solution,
    lemma_candidate_keeps_consistent, lemma_candidates_from, lemma_solution_value_is_candidate,
    lemma_solution_units, strictly_ascending, units_hold_each_digit_once,
};
use crate::grid_task::{
    deduced_value, lemma_deduced_forced, lemma_deduced_is_candidate, map_sound, map_wf,
    CandidateMap, GridTask,
};
use crate::utils::{cell_of_char, char_of_cell, str_to_vecu8, vecu8_to_str};

verus! {

/// How a run of propagation rounds ended.
#[derive(Clone, Copy, Debug, PartialEq, Eq)]
pub enum Propagation {
    /// No blank cell is left.
    Solved,
    /// Some blank cell has no candidate: no solution extends the grid.
    Contradiction,
    /// A round wrote nothing while blank cells remain.
    Stalled,
}

/// The tasks stand for the blank cells of `g`, one each, in ascending cell order.
pub open spec fn tasks_cover(tasks: Seq<GridTask>, g: Seq<u8>) -> bool {
    &&& g.len() == 81
    &&& forall|p: int|
        0 <= p < tasks.len() ==> #[trigger] tasks[p].index < 81 && g[tasks[p].index as int] == 0
    &&& forall|a: int, b: int| 0 <= a < b < tasks.len() ==> tasks[a].index < tasks[b].index
    &&& forall|k: int|
        0 <= k < 81 && g[k] == 0 ==> exists|p: int| 0 <= p < tasks.len() && tasks[p].index == k
}

/// No task has started this round, nor written a value.
pub open spec fn tasks_fresh(tasks: Seq<GridTask>) -> bool {
    forall|p: int| 0 <= p < tasks.len() ==> !(#[trigger] tasks[p]).done && !tasks[p].updated
}

/// Every solution that extends `g0` extends `g` too.
pub open spec fn keeps_solutions(g0: Seq<u8>, g: Seq<u8>) -> bool {
    forall|s: Seq<u8>|
        #![trigger is_solution(s), extends(s, g)]
        is_solution(s) && extends(s, g0) ==> extends(s, g)
}

proof fn lemma_extends_trans(a: Seq<u8>, b: Seq<u8>, c: Seq<u8>)
    requires
        extends(a, b),
        extends(b, c),
    ensures
        extends(a, c),
{
}

/// The candidate list recorded for cell `i` is the one the grid `g` gives it.
pub open spec fn map_entry_current(m: Map<usize, Vec<u8>>, g: Seq<u8>, i: usize) -> bool {
    m.contains_key(i) && m[i]@ == candidate_list(g, i as int)
}

/// One task's attempt keeps what the round has established.
proof fn lemma_run_step(
    g: Seq<u8>,
    m: Map<usize, Vec<u8>>,
    g2: Seq<u8>,
    m2: Map<usize, Vec<u8>>,
    i: usize,
)
    requires
        grid_wf(g),
        map_wf(m),
        map_sound(g, m),
        i < 81,
        g[i as int] == 0,
        m2 == m.insert(i, m2[i]),
        m2[i]@ == candidate_list(g, i as int),
        map_wf(m2),
        deduced_value(g, m2, i) != 0 ==> g2 == g.update(i as int, deduced_value(g, m2, i)),
        deduced_value(g, m2, i) == 0 ==> g2 == g,
    ensures
        grid_wf(g2),
        extends(g2, g),
        map_sound(g2, m2),
        keeps_solutions(g, g2),
        consistent(g) ==> consistent(g2),
        deduced_value(g, m2, i) != 0 ==> g2[i as int] != 0,
        forall|k: int| 0 <= k < 81 && k != i ==> g2[k] == g[k],
{
    assert(m2.contains_key(i));
    assert(map_sound(g, m2)) by {
        assert forall|s: Seq<u8>| is_solution(s) && extends(s, g) implies forall|j: usize|
            #[trigger] m2.contains_key(j) ==> m2[j]@.contains(s[j as int]) by {
            lemma_solution_value_is_candidate(g, s, i as int);
            lemma_candidates_from(g, i as int, 1);
            assert forall|j: usize| #[trigger] m2.contains_key(j) implies m2[j]@.contains(
                s[j as int],
            ) by {
                if j != i {
                    assert(m.contains_key(j));
                }
            }
        }
    }
    let d = deduced_value(g, m2, i);
    if d != 0 {
        lemma_deduced_is_candidate(g, m2, i);
        assert forall|s: Seq<u8>| is_solution(s) && extends(s, g) implies extends(s, g2) by {
            lemma_deduced_forced(g, m2, i, s);
        }
        assert forall|s: Seq<u8>| is_solution(s) && extends(s, g2) implies forall|j: usize|
            #[trigger] m2.contains_key(j) ==> m2[j]@.contains(s[j as int]) by {
            lemma_extends_trans(s, g2, g);
        }
        if consistent(g) {
            lemma_candidate_keeps_consistent(g, i as int, d);
        }
    }
}

/// One round: every task runs once, in turn.
fn run_round(puzzle: &mut Vec<u8>, map: &mut CandidateMap, tasks: &mut Vec<GridTask>)
    requires
        grid_wf(old(puzzle)@),
        map_wf(old(map)@),
        map_sound(old(puzzle)@, old(map)@),
        tasks_cover(old(tasks)@, old(puzzle)@),
        tasks_fresh(old(tasks)@),
    ensures
        grid_wf(final(puzzle)@),
        map_wf(final(map)@),
        map_sound(final(puzzle)@, final(map)@),
        extends(final(puzzle)@, old(puzzle)@),
        keeps_solutions(old(puzzle)@, final(puzzle)@),
        consistent(old(puzzle)@) ==> consistent(final(puzzle)@),
        final(tasks)@.len() == old(tasks)@.len(),
        forall|q: int|
            0 <= q < final(tasks)@.len() ==> {
                &&& (#[trigger] final(tasks)@[q]).index == old(tasks)@[q].index
                &&& final(tasks)@[q].done
                &&& final(map)@.contains_key(final(tasks)@[q].index)
                &&& final(tasks)@[q].updated == (final(puzzle)@[final(tasks)@[q].index as int] != 0)
            },
        (forall|q: int| 0 <= q < final(tasks)@.len() ==> !(#[trigger] final(tasks)@[q]).updated)
            ==> final(puzzle)@ == old(puzzle)@,
        final(puzzle)@ == old(puzzle)@ ==> forall|q: int|
            0 <= q < final(tasks)@.len() ==> map_entry_current(
                final(map)@,
                final(puzzle)@,
                #[trigger] final(tasks)@[q].index,
            ),
{
    let ghost g_start = puzzle@;
    let ghost t_start = tasks@;
    let mut p: usize = 0;
    while p < tasks.len()
        invariant
            grid_wf(puzzle@),
            map_wf(map@),
            map_sound(puzzle@, map@),
            tasks_cover(t_start, g_start),
            tasks_fresh(t_start),
            tasks@.len() == t_start.len(),
            p <= tasks@.len(),
            forall|q: int| 0 <= q < tasks@.len() ==> #[trigger] tasks@[q].index == t_start[q].index,
            forall|q: int|
                0 <= q < p ==> {
                    &&& (#[trigger] tasks@[q]).done
                    &&& map@.contains_key(tasks@[q].index)
                    &&& tasks@[q].updated == (puzzle@[tasks@[q].index as int] != 0)
                },
            forall|q: int| p <= q < tasks@.len() ==> #[trigger] tasks@[q] == t_start[q],
            forall|q: int| p <= q < tasks@.len() ==> puzzle@[#[trigger] t_start[q].index as int] == 0,
            extends(puzzle@, g_start),
            keeps_solutions(g_start, puzzle@),
            consistent(g_start) ==> consistent(puzzle@),
            (forall|q: int| 0 <= q < p ==> !(#[trigger] tasks@[q]).updated) ==> puzzle@ == g_start,
            puzzle@ == g_start ==> forall|q: int|
                0 <= q < p ==> map_entry_current(map@, puzzle@, #[trigger] tasks@[q].index),
        decreases tasks@.len() - p,
    {
        let ghost g = puzzle@;
        let ghost m = map@;
        let ghost tasks_before = tasks@;
        let mut t = tasks[p];
        assert(t == t_start[p as int]);
        t.run(puzzle, map);
        proof {
            lemma_run_step(g, m, puzzle@, map@, t.index);
            assert forall|s: Seq<u8>| is_solution(s) && extends(s, g_start) implies extends(
                s,
                puzzle@,
            ) by {
                assert(extends(s, g));
            }
            lemma_extends_trans(puzzle@, g, g_start);
        }
        tasks.set(p, t);
        p = p + 1;
        proof {
            assert forall|q: int| 0 <= q < p implies {
                &&& (#[trigger] tasks@[q]).done
                &&& map@.contains_key(tasks@[q].index)
                &&& tasks@[q].updated == (puzzle@[tasks@[q].index as int] != 0)
            } by {
                if q < p - 1 {
                    assert(tasks@[q] == tasks_before[q]);
                    assert(t_start[q].index < t_start[p - 1].index);
                }
            }
            assert forall|q: int| p <= q < tasks@.len() implies puzzle@[#[trigger] t_start[
                q].index as int] == 0 by {
                assert(t_start[p - 1].index < t_start[q].index);
            }
            if forall|q: int| 0 <= q < p ==> !(#[trigger] tasks@[q]).updated {
                assert(!tasks@[p - 1].updated);
                assert forall|q: int| 0 <= q < p - 1 implies !(#[trigger] tasks_before[
                    q]).updated by {
                    assert(tasks_before[q] == tasks@[q]);
                }
            }
            if puzzle@ == g_start {
                assert(g == g_start);
                assert forall|q: int| 0 <= q < p implies map_entry_current(
                    map@,
                    puzzle@,
                    #[trigger] tasks@[q].index,
                ) by {
                    if q < p - 1 {
                        assert(tasks@[q] == tasks_before[q]);
                        assert(t_start[q].index < t_start[p - 1].index);
                    }
                }
            }
        }
    }
}

/// `kept` holds, in order, the tasks among the first `q` that did not write
/// their cell: `origin` gives the position in `tasks` of each kept task, and
/// `slot` the position in `kept` of each task, or -1 where it was dropped.
spec fn kept_so_far(
    tasks: Seq<GridTask>,
    kept: Seq<GridTask>,
    origin: Seq<int>,
    slot: Seq<int>,
    q: int,
) -> bool {
    &&& 0 <= q <= tasks.len()
    &&& origin.len() == kept.len()
    &&& slot.len() == q
    &&& forall|a: int|
        0 <= a < kept.len() ==> {
            &&& 0 <= #[trigger] origin[a] < q
            &&& tasks[origin[a]] == kept[a]
            &&& slot[origin[a]] == a
        }
    &&& forall|a: int, b: int| 0 <= a < b < kept.len() ==> origin[a] < origin[b]
    &&& forall|r: int|
        0 <= r < q ==> if tasks[r].updated {
            #[trigger] slot[r] == -1
        } else {
            0 <= slot[r] < kept.len() && origin[slot[r]] == r
        }
}

/// The tasks that did not write their cell, in their order.
fn drop_updated(tasks: &Vec<GridTask>) -> (kept: Vec<GridTask>)
    requires
        forall|a: int, b: int| 0 <= a < b < tasks@.len() ==> tasks@[a].index < tasks@[b].index,
    ensures
        forall|a: int|
            0 <= a < kept@.len() ==> !(#[trigger] kept@[a]).updated && exists|r: int|
                0 <= r < tasks@.len() && #[trigger] tasks@[r] == kept@[a],
        forall|a: int, b: int| 0 <= a < b < kept@.len() ==> kept@[a].index < kept@[b].index,
        forall|r: int|
            0 <= r < tasks@.len() && !(#[trigger] tasks@[r]).updated ==> exists|a: int|
                0 <= a < kept@.len() && kept@[a] == tasks@[r],
        kept@.len() <= tasks@.len(),
        kept@.len() == tasks@.len() ==> forall|r: int|
            0 <= r < tasks@.len() ==> !(#[trigger] tasks@[r]).updated,
{
    let mut kept: Vec<GridTask> = Vec::new();
    let ghost mut origin: Seq<int> = Seq::empty();
    let ghost mut slot: Seq<int> = Seq::empty();
    let mut q: usize = 0;
    while q < tasks.len()
        invariant
            kept_so_far(tasks@, kept@, origin, slot, q as int),
            kept@.len() <= q,
            kept@.len() == q ==> forall|r: int| 0 <= r < q ==> !(#[trigger] tasks@[r]).updated,
        decreases tasks@.len() - q,
    {
        let ghost kept_before = kept@;
        let ghost origin_before = origin;
        let ghost slot_before = slot;
        if !tasks[q].updated() {
            kept.push(tasks[q]);
            proof {
                origin = origin.push(q as int);
                slot = slot.push(kept_before.len() as int);
                assert forall|a: int| 0 <= a < kept@.len() implies {
                    &&& 0 <= #[trigger] origin[a] < q + 1
                    &&& tasks@[origin[a]] == kept@[a]
                    &&& slot[origin[a]] == a
                } by {
                    if a < kept_before.len() {
                        assert(origin[a] == origin_before[a]);
                        assert(kept@[a] == kept_before[a]);
                    }
                }
                assert forall|r: int| 0 <= r < q + 1 implies if tasks@[r].updated {
                    #[trigger] slot[r] == -1
                } else {
                    0 <= slot[r] < kept@.len() && origin[slot[r]] == r
                } by {
                    if r < q {
                        assert(slot[r] == slot_before[r]);
                        if !tasks@[r].updated {
                            assert(origin[slot[r]] == origin_before[slot_before[r]]);
                        }
                    }
                }
                if kept@.len() == q + 1 {
                    assert forall|r: int| 0 <= r < q + 1 implies !(#[trigger] tasks@[r]).updated by {
                        if r < q {
                            assert(kept_before.len() == q);
                        }
                    }
                }
            }
        } else {
            proof {
                slot = slot.push(-1);
                assert forall|a: int| 0 <= a < kept@.len() implies {
                    &&& 0 <= #[trigger] origin[a] < q + 1
                    &&& tasks@[origin[a]] == kept@[a]
                    &&& slot[origin[a]] == a
                } by {
                    assert(slot[origin[a]] == slot_before[origin[a]]);
                }
                assert forall|r: int| 0 <= r < q + 1 implies if tasks@[r].updated {
                    #[trigger] slot[r] == -1
                } else {
                    0 <= slot[r] < kept@.len() && origin[slot[r]] == r
                } by {
                    if r < q {
                        assert(slot[r] == slot_before[r]);
                    }
                }
            }
        }
        q = q + 1;
    }
    proof {
        assert forall|a: int| 0 <= a < kept@.len() implies !(#[trigger] kept@[a]).updated
            && exists|r: int| 0 <= r < tasks@.len() && #[trigger] tasks@[r] == kept@[a] by {
            assert(tasks@[origin[a]] == kept@[a]);
            assert(slot[origin[a]] == a);
        }
        assert forall|a: int, b: int| 0 <= a < b < kept@.len() implies kept@[a].index
            < kept@[b].index by {
            assert(origin[a] < origin[b]);
            assert(tasks@[origin[a]] == kept@[a]);
            assert(tasks@[origin[b]] == kept@[b]);
        }
        assert forall|r: int| 0 <= r < tasks@.len() && !(#[trigger] tasks@[r]).updated implies exists|
            a: int,
        | 0 <= a < kept@.len() && kept@[a] == tasks@[r] by {
            assert(slot[r] == slot[r]);
            assert(tasks@[origin[slot[r]]] == kept@[slot[r]]);
        }
    }
    kept
}

/// Some task has an empty candidate list.
fn any_without_candidates(tasks: &Vec<GridTask>, map: &CandidateMap) -> (r: bool)
    requires
        forall|p: int| 0 <= p < tasks@.len() ==> map@.contains_key(#[trigger] tasks@[p].index),
    ensures
        r == exists|p: int|
            0 <= p < tasks@.len() && (#[trigger] map@[tasks@[p].index])@.len() == 0,
{
    let mut a: usize = 0;
    while a < tasks.len()
        invariant
            a <= tasks@.len(),
            forall|p: int| 0 <= p < tasks@.len() ==> map@.contains_key(#[trigger] tasks@[p].index),
            forall|p: int| 0 <= p < a ==> (#[trigger] map@[tasks@[p].index])@.len() != 0,
        decreases tasks@.len() - a,
    {
        if tasks[a].possible_values(map).len() == 0 {
            assert((map@[tasks@[a as int].index])@.len() == 0);
            return true;
        }
        a = a + 1;
    }
    false
}

/// Marks every task as due again.
fn reset_all(tasks: &mut Vec<GridTask>)
    ensures
        final(tasks)@.len() == old(tasks)@.len(),
        forall|p: int|
            0 <= p < final(tasks)@.len() ==> #[trigger] final(tasks)@[p] == (GridTask {
                done: false,
                ..old(tasks)@[p]
            }),
{
    let ghost start = tasks@;
    let mut a: usize = 0;
    while a < tasks.len()
        invariant
            a <= tasks@.len(),
            tasks@.len() == start.len(),
            forall|p: int|
                0 <= p < a ==> #[trigger] tasks@[p] == (GridTask { done: false, ..start[p] }),
            forall|p: int| a <= p < tasks@.len() ==> #[trigger] tasks@[p] == start[p],
        decreases tasks@.len() - a,
    {
        let mut t = tasks[a];
        t.reset_done();
        tasks.set(a, t);
        a = a + 1;
    }
}

/// Runs rounds of the tasks over `puzzle` until no blank cell is left, some
/// blank cell has no candidate, or a round writes nothing. Every task of a
/// round runs in turn, in ascending cell order; tasks that wrote their cell
/// are then dropped, and the others are marked due again.
pub fn propagate(puzzle: &mut Vec<u8>, map: &mut CandidateMap, tasks: &mut Vec<GridTask>) -> (r:
    Propagation)
    requires
        grid_wf(old(puzzle)@),
        map_wf(old(map)@),
        map_sound(old(puzzle)@, old(map)@),
        tasks_cover(old(tasks)@, old(puzzle)@),
        tasks_fresh(old(tasks)@),
    ensures
        grid_wf(final(puzzle)@),
        extends(final(puzzle)@, old(puzzle)@),
        keeps_solutions(old(puzzle)@, final(puzzle)@),
        consistent(old(puzzle)@) ==> consistent(final(puzzle)@),
        r == Propagation::Solved <==> complete(final(puzzle)@),
        r == Propagation::Contradiction ==> forall|s: Seq<u8>|
            #![trigger is_solution(s), extends(s, old(puzzle)@)]
            !(is_solution(s) && extends(s, old(puzzle)@)),
        r == Propagation::Stalled ==> {
            &&& final(tasks)@.len() > 0
            &&& tasks_cover(final(tasks)@, final(puzzle)@)
            &&& forall|p: int|
                0 <= p < final(tasks)@.len() ==> map_entry_current(
                    final(map)@,
                    final(puzzle)@,
                    #[trigger] final(tasks)@[p].index,
                )
        },
        old(tasks)@.len() == 0 ==> r == Propagation::Solved && final(puzzle)@ == old(puzzle)@,
{
    let ghost g0 = puzzle@;
    if tasks.len() == 0 {
        assert forall|k: int| 0 <= k < 81 implies 1 <= #[trigger] puzzle@[k] <= 9 by {
            if puzzle@[k] == 0 {
                let p = choose|p: int| 0 <= p < tasks@.len() && tasks@[p].index == k;
            }
        }
        assert(extends(puzzle@, g0));
        assert(keeps_solutions(g0, puzzle@));
        return Propagation::Solved;
    }
    loop
        invariant
            g0 == old(puzzle)@,
            old(tasks)@.len() > 0,
            grid_wf(puzzle@),
            map_wf(map@),
            map_sound(puzzle@, map@),
            tasks_cover(tasks@, puzzle@),
            tasks_fresh(tasks@),
            tasks@.len() > 0,
            extends(puzzle@, g0),
            keeps_solutions(g0, puzzle@),
            consistent(g0) ==> consistent(puzzle@),
        decreases tasks@.len(),
    {
        let ghost g_start = puzzle@;
        let ghost t_start = tasks@;
        run_round(puzzle, map, tasks);
        proof {
            lemma_extends_trans(puzzle@, g_start, g0);
            assert forall|s: Seq<u8>| is_solution(s) && extends(s, g0) implies extends(
                s,
                puzzle@,
            ) by {
                assert(extends(s, g_start));
            }
        }
        let ghost ran = tasks@;
        let before_len = tasks.len();
        let kept = drop_updated(tasks);
        *tasks = kept;
        proof {
            assert forall|a: int| 0 <= a < tasks@.len() implies #[trigger] tasks@[a].index < 81
                && puzzle@[tasks@[a].index as int] == 0 && map@.contains_key(tasks@[a].index) by {
                let r = choose|r: int| 0 <= r < ran.len() && ran[r] == tasks@[a];
                assert(t_start[r].index < 81);
            }
            assert forall|k: int| 0 <= k < 81 && puzzle@[k] == 0 implies exists|p: int|
                0 <= p < tasks@.len() && tasks@[p].index == k by {
                assert(g_start[k] == 0);
                let r = choose|r: int| 0 <= r < t_start.len() && t_start[r].index == k;
                assert(ran[r].index == k);
                assert(!ran[r].updated);
                let a = choose|a: int| 0 <= a < tasks@.len() && tasks@[a] == ran[r];
                assert(tasks@[a].index == k);
            }
        }
        if tasks.len() == 0 {
            assert forall|k: int| 0 <= k < 81 implies 1 <= #[trigger] puzzle@[k] <= 9 by {
                if puzzle@[k] == 0 {
                    let p = choose|p: int| 0 <= p < tasks@.len() && tasks@[p].index == k;
                }
            }
            return Propagation::Solved;
        }
        if any_without_candidates(tasks, map) {
            proof {
                let p = choose|p: int|
                    0 <= p < tasks@.len() && (#[trigger] map@[tasks@[p].index])@.len() == 0;
                let i = tasks@[p].index;
                assert forall|s: Seq<u8>| #![trigger is_solution(s), extends(s, g0)]
                    !(is_solution(s) && extends(s, g0)) by {
                    if is_solution(s) && extends(s, g0) {
                        assert(extends(s, puzzle@));
                        assert(map@.contains_key(i));
                        assert(map@[i]@.contains(s[i as int]));
                    }
                }
                assert(puzzle@[tasks@[0].index as int] == 0);
            }
            return Propagation::Contradiction;
        }
        if tasks.len() == before_len {
            proof {
                assert(puzzle@ == g_start);
                assert forall|p: int| 0 <= p < tasks@.len() implies map_entry_current(
                    map@,
                    puzzle@,
                    #[trigger] tasks@[p].index,
                ) by {
                    let r = choose|r: int| 0 <= r < ran.len() && ran[r] == tasks@[p];
                }
                assert(puzzle@[tasks@[0].index as int] == 0);
            }
            return Propagation::Stalled;
        }
        let ghost before_reset = tasks@;
        reset_all(tasks);
        proof {
            assert forall|k: int| 0 <= k < 81 && puzzle@[k] == 0 implies exists|p: int|
                0 <= p < tasks@.len() && tasks@[p].index == k by {
                let p = choose|p: int| 0 <= p < before_reset.len() && before_reset[p].index == k;
                assert(tasks@[p].index == k);
            }
        }
    }
}

/// The number of blank cells of `g`.
pub open spec fn blank_count(g: Seq<u8>) -> nat
    decreases g.len(),
{
    if g.len() == 0 {
        0
    } else {
        blank_count(g.drop_last()) + if g.last() == 0 {
            1nat
        } else {
            0nat
        }
    }
}

proof fn lemma_blank_count_extends(a: Seq<u8>, b: Seq<u8>)
    requires
        a.len() == b.len(),
        forall|k: int| 0 <= k < b.len() && b[k] != 0 ==> a[k] == b[k],
    ensures
        blank_count(a) <= blank_count(b),
    decreases a.len(),
{
    if a.len() > 0 {
        lemma_blank_count_extends(a.drop_last(), b.drop_last());
    }
}

proof fn lemma_blank_count_fill(g: Seq<u8>, i: int, v: u8)
    requires
        0 <= i < g.len(),
        g[i] == 0,
        v != 0,
    ensures
        blank_count(g.update(i, v)) + 1 == blank_count(g),
    decreases g.len(),
{
    if i == g.len() - 1 {
        assert(g.update(i, v).drop_last() =~= g.drop_last());
    } else {
        lemma_blank_count_fill(g.drop_last(), i, v);
        assert(g.update(i, v).drop_last() =~= g.drop_last().update(i, v));
    }
}

/// No grid stands twice in `r`.
pub open spec fn distinct_grids(r: Seq<Vec<u8>>) -> bool {
    forall|a: int, b: int| 0 <= a < b < r.len() ==> r[a]@ != r[b]@
}

/// Every grid of `r` is filled and keeps the filled cells of `puzzle`; where
/// `puzzle` is consistent, every one is a solution.
pub open spec fn grids_extend(r: Seq<Vec<u8>>, puzzle: Seq<u8>) -> bool {
    forall|k: int|
        0 <= k < r.len() ==> {
            &&& complete(#[trigger] r[k]@)
            &&& extends(r[k]@, puzzle)
            &&& consistent(puzzle) ==> is_solution(r[k]@)
        }
}

/// Every solution of `puzzle` stands in `r`.
pub open spec fn holds_solutions(r: Seq<Vec<u8>>, puzzle: Seq<u8>) -> bool {
    forall|s: Seq<u8>|
        #![trigger is_solution(s), extends(s, puzzle)]
        is_solution(s) && extends(s, puzzle) ==> exists|k: int| 0 <= k < r.len() && r[k]@ == s
}

/// Each grid of `res` gives cell `i` one of the first `k` values.
spec fn tagged_below(res: Seq<Vec<u8>>, i: usize, values: Seq<u8>, k: int) -> bool {
    forall|a: int|
        0 <= a < res.len() ==> exists|j: int| 0 <= j < k && (#[trigger] res[a])@[i as int] == values[j]
}

/// Each solution of `given` that gives cell `i` one of the first `k` values stands in `res`.
spec fn found_below(res: Seq<Vec<u8>>, given: Seq<u8>, i: usize, values: Seq<u8>, k: int) -> bool {
    forall|s: Seq<u8>|
        #![trigger is_solution(s), extends(s, given)]
        is_solution(s) && extends(s, given) && (exists|j: int| 0 <= j < k && s[i as int] == values[j])
            ==> exists|a: int| 0 <= a < res.len() && res[a]@ == s
}

/// The facts of the branch loop after the branch on `values[k]`.
proof fn lemma_branch_step(
    given: Seq<u8>,
    g: Seq<u8>,
    nv: Seq<u8>,
    i: usize,
    v: u8,
    values: Seq<u8>,
    k: int,
    res_before: Seq<Vec<u8>>,
    sols: Seq<Vec<u8>>,
    res: Seq<Vec<u8>>,
)
    requires
        i < 81,
        grid_wf(g),
        g[i as int] == 0,
        1 <= v <= 9,
        nv == g.update(i as int, v),
        0 <= k < values.len(),
        values[k] == v,
        strictly_ascending(values),
        extends(g, given),
        keeps_solutions(given, g),
        consistent(given) ==> consistent(nv),
        grids_extend(res_before, given),
        distinct_grids(res_before),
        tagged_below(res_before, i, values, k),
        found_below(res_before, given, i, values, k),
        grids_extend(sols, nv),
        holds_solutions(sols, nv),
        distinct_grids(sols),
        res == res_before + sols,
    ensures
        grids_extend(res, given),
        distinct_grids(res),
        tagged_below(res, i, values, k + 1),
        found_below(res, given, i, values, k + 1),
{
    let n = res_before.len();
    assert(extends(nv, g));
    assert forall|a: int| 0 <= a < res.len() implies {
        &&& complete(#[trigger] res[a]@)
        &&& extends(res[a]@, given)
        &&& consistent(given) ==> is_solution(res[a]@)
    } by {
        if a >= n {
            assert(res[a] == sols[a - n]);
            lemma_extends_trans(res[a]@, nv, g);
            lemma_extends_trans(res[a]@, g, given);
        } else {
            assert(res[a] == res_before[a]);
        }
    }
    assert forall|a: int| 0 <= a < res.len() implies exists|j: int|
        0 <= j < k + 1 && (#[trigger] res[a])@[i as int] == values[j] by {
        if a >= n {
            assert(res[a] == sols[a - n]);
            assert(res[a]@[i as int] == values[k]);
        } else {
            assert(res[a] == res_before[a]);
            let j = choose|j: int| 0 <= j < k && res_before[a]@[i as int] == values[j];
        }
    }
    assert forall|a: int, b: int| 0 <= a < b < res.len() implies res[a]@ != res[b]@ by {
        if b < n {
            assert(res[a] == res_before[a]);
            assert(res[b] == res_before[b]);
        } else if a >= n {
            assert(res[a] == sols[a - n]);
            assert(res[b] == sols[b - n]);
        } else {
            assert(res[a] == res_before[a]);
            assert(res[b] == sols[b - n]);
            let j = choose|j: int| 0 <= j < k && res_before[a]@[i as int] == values[j];
            assert(values[j] < values[k]);
            assert(res[b]@[i as int] == v);
        }
    }
    assert forall|s: Seq<u8>|
        #![trigger is_solution(s), extends(s, given)]
        is_solution(s) && extends(s, given) && (exists|j: int|
            0 <= j < k + 1 && s[i as int] == values[j]) implies exists|a: int|
        0 <= a < res.len() && res[a]@ == s by {
        let j = choose|j: int| 0 <= j < k + 1 && s[i as int] == values[j];
        if j < k {
            let a = choose|a: int| 0 <= a < res_before.len() && res_before[a]@ == s;
            assert(res[a] == res_before[a]);
        } else {
            assert(extends(s, g));
            assert(extends(s, nv));
            let b = choose|b: int| 0 <= b < sols.len() && sols[b]@ == s;
            assert(res[n + b] == sols[b]);
        }
    }
}

/// All solutions of `puzzle`, each once, in the order the search finds them:
/// propagation to a fixpoint, then, while blank cells remain, a branch on
/// each candidate of the first remaining blank cell, in ascending order.
pub fn solve_grid(puzzle: Vec<u8>) -> (r: Vec<Vec<u8>>)
    requires
        grid_wf(puzzle@),
    ensures
        grids_extend(r@, puzzle@),
        holds_solutions(r@, puzzle@),
        distinct_grids(r@),
        complete(puzzle@) ==> r@.len() == 1 && r@[0]@ == puzzle@,
    decreases blank_count(puzzle@),
{
    let ghost given = puzzle@;
    let mut grid = puzzle;
    let mut map: CandidateMap = HashMap::new();
    let mut tasks = GridTask::generate_tasks(&grid);
    proof {
        if complete(given) {
            if tasks@.len() > 0 {
                assert(given[tasks@[0].index as int] == 0);
            }
        }
    }
    let outcome = propagate(&mut grid, &mut map, &mut tasks);
    match outcome {
        Propagation::Solved => {
            proof {
                assert forall|s: Seq<u8>| is_solution(s) && extends(s, given) implies s == grid@ by {
                    assert(extends(s, grid@));
                    assert(s =~= grid@);
                }
            }
            let mut r: Vec<Vec<u8>> = Vec::new();
            r.push(grid);
            proof {
                assert forall|s: Seq<u8>| #![trigger is_solution(s), extends(s, given)]
                    is_solution(s) && extends(s, given) implies exists|k: int|
                    0 <= k < r@.len() && r@[k]@ == s by {
                    assert(r@[0]@ == s);
                }
            }
            r
        },
        Propagation::Contradiction => {
            let r: Vec<Vec<u8>> = Vec::new();
            r
        },
        Propagation::Stalled => {
            let base = tasks[0];
            let i = base.index;
            let values = base.possible_values(&map);
            proof {
                lemma_candidates_from(grid@, i as int, 1);
                lemma_blank_count_extends(grid@, given);
            }
            let mut res: Vec<Vec<u8>> = Vec::new();
            let mut k: usize = 0;
            while k < values.len()
                invariant
                    given == puzzle@,
                    i < 81,
                    values@ == candidate_list(grid@, i as int),
                    strictly_ascending(values@),
                    forall|w: u8| #[trigger] values@.contains(w) <==> (1 <= w && is_candidate(grid@, i as int, w)),
                    grid@[i as int] == 0,
                    grid_wf(grid@),
                    extends(grid@, given),
                    keeps_solutions(given, grid@),
                    consistent(given) ==> consistent(grid@),
                    blank_count(grid@) <= blank_count(given),
                    k <= values@.len(),
                    grids_extend(res@, given),
                    distinct_grids(res@),
                    tagged_below(res@, i, values@, k as int),
                    found_below(res@, given, i, values@, k as int),
                decreases values@.len() - k,
            {
                let v: u8 = values[k];
                let mut next = grid.clone();
                assert(next@ =~= grid@);
                next.set(i, v);
                let ghost nv = next@;
                proof {
                    assert(values@.contains(v));
                    lemma_blank_count_fill(grid@, i as int, v);
                    if consistent(given) {
                        lemma_candidate_keeps_consistent(grid@, i as int, v);
                    }
                }
                let mut sols = solve_grid(next);
                let ghost res_before = res@;
                let ghost sols_v = sols@;
                res.append(&mut sols);
                proof {
                    lemma_branch_step(given, grid@, nv, i, v, values@, k as int, res_before, sols_v, res@);
                }
                k = k + 1;
            }
            proof {
                assert forall|s: Seq<u8>| #![trigger is_solution(s), extends(s, given)]
                    is_solution(s) && extends(s, given) implies exists|a: int|
                    0 <= a < res@.len() && res@[a]@ == s by {
                    assert(extends(s, grid@));
                    lemma_solution_value_is_candidate(grid@, s, i as int);
                    assert(values@.contains(s[i as int]));
                    let j = choose|j: int| 0 <= j < values@.len() && values@[j] == s[i as int];
                    assert(found_below(res@, given, i, values@, k as int));
                }
            }
            res
        },
    }
}

/// The grids of `r`, as values.
pub open spec fn grid_values(r: Seq<Vec<u8>>) -> Seq<Seq<u8>> {
    r.map_values(|v: Vec<u8>| v@)
}

/// Two results that meet the contract of `solve_grid` for one puzzle with
/// consistent givens hold the same grids, the same number of them: the order
/// is all that may differ.
pub proof fn lemma_results_hold_same_grids(puzzle: Seq<u8>, r1: Seq<Vec<u8>>, r2: Seq<Vec<u8>>)
    requires
        consistent(puzzle),
        grids_extend(r1, puzzle),
        holds_solutions(r1, puzzle),
        distinct_grids(r1),
        grids_extend(r2, puzzle),
        holds_solutions(r2, puzzle),
        distinct_grids(r2),
    ensures
        grid_values(r1).to_set() == grid_values(r2).to_set(),
        r1.len() == r2.len(),
{
    let g1 = grid_values(r1);
    let g2 = grid_values(r2);
    assert forall|x: Seq<u8>| g1.contains(x) implies g2.contains(x) by {
        let a = choose|a: int| 0 <= a < g1.len() && g1[a] == x;
        assert(r1[a]@ == x);
        assert(is_solution(x) && extends(x, puzzle));
        let b = choose|b: int| 0 <= b < r2.len() && r2[b]@ == x;
        assert(g2[b] == x);
    }
    assert forall|x: Seq<u8>| g2.contains(x) implies g1.contains(x) by {
        let b = choose|b: int| 0 <= b < g2.len() && g2[b] == x;
        assert(r2[b]@ == x);
        assert(is_solution(x) && extends(x, puzzle));
        let a = choose|a: int| 0 <= a < r1.len() && r1[a]@ == x;
        assert(g1[a] == x);
    }
    assert(g1.to_set() =~= g2.to_set());
    assert(g1.no_duplicates()) by {
        assert forall|a: int, b: int| 0 <= a < g1.len() && 0 <= b < g1.len() && a != b implies g1[a]
            != g1[b] by {
            if a < b {
                assert(r1[a]@ != r1[b]@);
            } else {
                assert(r1[b]@ != r1[a]@);
            }
        }
    }
    assert(g2.no_duplicates()) by {
        assert forall|a: int, b: int| 0 <= a < g2.len() && 0 <= b < g2.len() && a != b implies g2[a]
            != g2[b] by {
            if a < b {
                assert(r2[a]@ != r2[b]@);
            } else {
                assert(r2[b]@ != r2[a]@);
            }
        }
    }
    g1.unique_seq_to_set();
    g2.unique_seq_to_set();
}

/// The cell values that a puzzle text stands for.
pub open spec fn text_grid(t: Seq<char>) -> Seq<u8> {
    t.map_values(|c: char| cell_of_char(c))
}

/// `t` is the text of a filled grid that keeps the givens of `puzzle`; where
/// the givens of `puzzle` are consistent, every row, column and block of it
/// holds each digit exactly once.
pub open spec fn solution_text(t: Seq<char>, puzzle: Seq<char>) -> bool {
    &&& t.len() == 81
    &&& forall|k: int| 0 <= k < 81 ==> '1' <= #[trigger] t[k] <= '9'
    &&& extends(text_grid(t), text_grid(puzzle))
    &&& consistent(text_grid(puzzle)) ==> units_hold_each_digit_once(text_grid(t))
}

proof fn lemma_cell_text(n: u8)
    requires
        n <= 9,
    ensures
        cell_of_char(char_of_cell(n)) == n,
        n != 0 ==> '1' <= char_of_cell(n) <= '9',
{
}

/// Solves the puzzle text `puzzle`: 81 characters, a digit 1 to 9 for each
/// given and any other character for a blank. Returns the text of every
/// solution, each once, in the order the search finds them; none where the
/// puzzle has no solution.
pub fn solve_sequentially(puzzle: &str) -> (r: Vec<String>)
    requires
        puzzle@.len() == 81,
    ensures
        forall|k: int| 0 <= k < r@.len() ==> solution_text(#[trigger] r@[k]@, puzzle@),
        forall|s: Seq<u8>|
            #![trigger is_solution(s), extends(s, text_grid(puzzle@))]
            is_solution(s) && extends(s, text_grid(puzzle@)) ==> exists|k: int|
                0 <= k < r@.len() && text_grid(r@[k]@) == s,
        forall|a: int, b: int| 0 <= a < b < r@.len() ==> r@[a]@ != r@[b]@,
        complete(text_grid(puzzle@)) ==> r@.len() == 1 && r@[0]@ == puzzle@,
{
    let grid = str_to_vecu8(puzzle);
    let ghost pg = grid@;
    assert(pg =~= text_grid(puzzle@));
    assert forall|k: int| 0 <= k < 81 implies #[trigger] pg[k] <= 9 by {
        assert(pg[k] == cell_of_char(puzzle@[k]));
    }
    let sols = solve_grid(grid);
    let mut r: Vec<String> = Vec::new();
    let mut k: usize = 0;
    while k < sols.len()
        invariant
            pg == text_grid(puzzle@),
            grids_extend(sols@, pg),
            k <= sols@.len(),
            r@.len() == k,
            forall|a: int| 0 <= a < k ==> (#[trigger] r@[a])@ == sols@[a]@.map_values(|n: u8| char_of_cell(n)),
        decreases sols@.len() - k,
    {
        let text = vecu8_to_str(&sols[k]);
        r.push(text);
        k = k + 1;
    }
    proof {
        assert forall|a: int| 0 <= a < r@.len() implies text_grid(#[trigger] r@[a]@) == sols@[a]@ by {
            assert forall|c: int| 0 <= c < 81 implies #[trigger] text_grid(r@[a]@)[c] == sols@[a]@[c] by {
                lemma_cell_text(sols@[a]@[c]);
            }
            assert(text_grid(r@[a]@) =~= sols@[a]@);
        }
        assert forall|a: int| 0 <= a < r@.len() implies solution_text(#[trigger] r@[a]@, puzzle@) by {
            assert(text_grid(r@[a]@) == sols@[a]@);
            assert forall|c: int| 0 <= c < 81 implies '1' <= #[trigger] r@[a]@[c] <= '9' by {
                lemma_cell_text(sols@[a]@[c]);
            }
            if consistent(pg) {
                lemma_solution_units(sols@[a]@);
            }
        }
        assert forall|a: int, b: int| 0 <= a < b < r@.len() implies r@[a]@ != r@[b]@ by {
            assert(text_grid(r@[a]@) == sols@[a]@);
            assert(text_grid(r@[b]@) == sols@[b]@);
        }
        assert forall|s: Seq<u8>|
            #![trigger is_solution(s), extends(s, text_grid(puzzle@))]
            is_solution(s) && extends(s, text_grid(puzzle@)) implies exists|k: int|
                0 <= k < r@.len() && text_grid(r@[k]@) == s by {
            let k = choose|k: int| 0 <= k < sols@.len() && sols@[k]@ == s;
            assert(text_grid(r@[k]@) == sols@[k]@);
        }
        if complete(pg) {
            assert forall|c: int| 0 <= c < 81 implies #[trigger] r@[0]@[c] == puzzle@[c] by {
                assert(sols@[0]@[c] == pg[c]);
                lemma_cell_text(pg[c]);
                if !('0' <= puzzle@[c] && puzzle@[c] <= '9') {
                    assert(pg[c] == 0);
                }
            }
            assert(r@[0]@ =~= puzzle@);
        }
    }
    r
}

} // verus!
