use std::collections::HashMap;
use vstd::prelude::*;

use crate::grid::{
    candidate_list, candidates_from, digit_once, digits_once, extends, grid_wf, group_has,
    is_candidate, is_solution, lemma_candidates_from, lemma_group_entries, lemma_solution_units,
};
use crate::utils::{
    block_indices, col_indices, conjugate_block_index, conjugate_col_index, conjugate_row_index,
    row_indices,
};

verus! {

broadcast use vstd::std_specs::hash::group_hash_axioms;

/// The candidate list last computed for each cell, by cell index.
pub type CandidateMap = HashMap<usize, Vec<u8>>;

/// Every key is a cell index and every recorded candidate is a digit 1 to 9.
pub open spec fn map_wf(m: Map<usize, Vec<u8>>) -> bool {
    forall|j: usize|
        #[trigger] m.contains_key(j) ==> j < 81 && forall|k: int|
            0 <= k < m[j]@.len() ==> 1 <= #[trigger] m[j]@[k] <= 9
}

/// The unit of work for one blank cell: it deduces the cell's value from the
/// values of its peers, and records what it found.
#[derive(Clone, Copy, Debug)]
pub struct GridTask {
    /// The cell the task works on.
    pub index: usize,
    /// This round's attempt has finished.
    pub done: bool,
    /// This round's attempt wrote a value into the cell.
    pub updated: bool,
}

/// Digit `v` is left for cell `i` alone within the group `grp`: it is among
/// the candidates recorded for `i`, and every other blank cell of the group
/// has recorded candidates that leave it out.
pub open spec fn hidden_in(g: Seq<u8>, m: Map<usize, Vec<u8>>, i: usize, grp: Seq<usize>, v: u8) -> bool {
    &&& m[i]@.contains(v)
    &&& forall|k: int|
        0 <= k < grp.len() && #[trigger] grp[k] != i && g[grp[k] as int] == 0 ==> m.contains_key(
            grp[k],
        ) && !m[grp[k]]@.contains(v)
}

/// `v` is the one digit below 10 that is left for cell `i` alone within `grp`.
pub open spec fn unique_hidden(
    g: Seq<u8>,
    m: Map<usize, Vec<u8>>,
    i: usize,
    grp: Seq<usize>,
    v: u8,
) -> bool {
    &&& v < 10
    &&& hidden_in(g, m, i, grp, v)
    &&& forall|w: u8| w < 10 && w != v ==> !#[trigger] hidden_in(g, m, i, grp, w)
}

pub open spec fn has_unique_hidden(g: Seq<u8>, m: Map<usize, Vec<u8>>, i: usize, grp: Seq<usize>) -> bool {
    exists|v: u8| #[trigger] unique_hidden(g, m, i, grp, v)
}

/// The hidden single of cell `i`: the digit left for it alone in its row, else
/// in its column, else in its block; 0 where there is none.
pub open spec fn hidden_single(g: Seq<u8>, m: Map<usize, Vec<u8>>, i: usize) -> u8 {
    if has_unique_hidden(g, m, i, row_indices(i as int)) {
        choose|v: u8| unique_hidden(g, m, i, row_indices(i as int), v)
    } else if has_unique_hidden(g, m, i, col_indices(i as int)) {
        choose|v: u8| unique_hidden(g, m, i, col_indices(i as int), v)
    } else if has_unique_hidden(g, m, i, block_indices(i as int)) {
        choose|v: u8| unique_hidden(g, m, i, block_indices(i as int), v)
    } else {
        0
    }
}

/// The value that a task for cell `i` writes, given the candidate map `m`
/// after it recorded its own candidates: the naked single where there is
/// exactly one candidate, else the hidden single; 0 where it writes nothing.
pub open spec fn deduced_value(g: Seq<u8>, m: Map<usize, Vec<u8>>, i: usize) -> u8 {
    if candidate_list(g, i as int).len() == 1 {
        candidate_list(g, i as int)[0]
    } else {
        hidden_single(g, m, i)
    }
}

/// Every candidate list in `m` keeps the value that each solution extending
/// `g` gives its cell.
pub open spec fn map_sound(g: Seq<u8>, m: Map<usize, Vec<u8>>) -> bool {
    forall|s: Seq<u8>|
        #![trigger is_solution(s), extends(s, g)]
        is_solution(s) && extends(s, g) ==> forall|j: usize|
            #[trigger] m.contains_key(j) ==> m[j]@.contains(s[j as int])
}

/// A value that a task deduces is a candidate of its cell.
pub proof fn lemma_deduced_is_candidate(g: Seq<u8>, m: Map<usize, Vec<u8>>, i: usize)
    requires
        i < 81,
        m.contains_key(i),
        m[i]@ == candidate_list(g, i as int),
        deduced_value(g, m, i) != 0,
    ensures
        is_candidate(g, i as int, deduced_value(g, m, i)),
{
    lemma_candidates_from(g, i as int, 1);
    let v = deduced_value(g, m, i);
    if candidate_list(g, i as int).len() == 1 {
        assert(candidate_list(g, i as int).contains(v));
    } else if has_unique_hidden(g, m, i, row_indices(i as int)) {
        assert(unique_hidden(g, m, i, row_indices(i as int), v));
    } else if has_unique_hidden(g, m, i, col_indices(i as int)) {
        assert(unique_hidden(g, m, i, col_indices(i as int), v));
    } else {
        assert(unique_hidden(g, m, i, block_indices(i as int), v));
    }
}

proof fn lemma_hidden_forced(
    g: Seq<u8>,
    m: Map<usize, Vec<u8>>,
    i: usize,
    grp: Seq<usize>,
    v: u8,
    s: Seq<u8>,
)
    requires
        grid_wf(g),
        i < 81,
        unique_hidden(g, m, i, grp, v),
        1 <= v <= 9,
        !group_has(g, grp, v),
        grp.len() == 9,
        forall|k: int| 0 <= k < 9 ==> #[trigger] grp[k] < 81,
        digits_once(s, grp),
        is_solution(s),
        extends(s, g),
        map_sound(g, m),
    ensures
        s[i as int] == v,
{
    assert(digit_once(s, grp, v));
    let k = choose|k: int| 0 <= k < 9 && s[#[trigger] grp[k] as int] == v;
    let j = grp[k];
    if j != i {
        if g[j as int] != 0 {
            assert(group_has(g, grp, v));
        } else {
            assert(m.contains_key(j));
            assert(m[j]@.contains(s[j as int]));
        }
    }
}

/// A value that a task deduces is the value that every solution extending the
/// grid gives the cell, as long as the recorded candidate lists keep the
/// values of those solutions.
pub proof fn lemma_deduced_forced(g: Seq<u8>, m: Map<usize, Vec<u8>>, i: usize, s: Seq<u8>)
    requires
        grid_wf(g),
        i < 81,
        g[i as int] == 0,
        m.contains_key(i),
        m[i]@ == candidate_list(g, i as int),
        map_sound(g, m),
        is_solution(s),
        extends(s, g),
        deduced_value(g, m, i) != 0,
    ensures
        s[i as int] == deduced_value(g, m, i),
{
    lemma_candidates_from(g, i as int, 1);
    lemma_deduced_is_candidate(g, m, i);
    lemma_solution_units(s);
    lemma_group_entries(i as int);
    let v = deduced_value(g, m, i);
    assert(m[i]@.contains(s[i as int]));
    if candidate_list(g, i as int).len() == 1 {
        let k = choose|k: int| 0 <= k < m[i]@.len() && m[i]@[k] == s[i as int];
        assert(k == 0);
    } else if has_unique_hidden(g, m, i, row_indices(i as int)) {
        lemma_hidden_forced(g, m, i, row_indices(i as int), v, s);
    } else if has_unique_hidden(g, m, i, col_indices(i as int)) {
        lemma_hidden_forced(g, m, i, col_indices(i as int), v, s);
    } else {
        lemma_hidden_forced(g, m, i, block_indices(i as int), v, s);
    }
}

/// Writes false into `flags` at each value that a cell of `indexs` holds.
fn clear_present(flags: &mut Vec<bool>, puzzle: &Vec<u8>, indexs: &Vec<usize>)
    requires
        old(flags)@.len() == 10,
        grid_wf(puzzle@),
        forall|k: int| 0 <= k < indexs@.len() ==> #[trigger] indexs@[k] < 81,
    ensures
        final(flags)@.len() == 10,
        forall|w: u8|
            w < 10 ==> #[trigger] final(flags)@[w as int] == (old(flags)@[w as int] && !group_has(
                puzzle@,
                indexs@,
                w,
            )),
{
    let ghost before = flags@;
    let mut k: usize = 0;
    while k < indexs.len()
        invariant
            flags@.len() == 10,
            grid_wf(puzzle@),
            forall|q: int| 0 <= q < indexs@.len() ==> #[trigger] indexs@[q] < 81,
            k <= indexs@.len(),
            forall|w: u8|
                w < 10 ==> #[trigger] flags@[w as int] == (before[w as int] && !(exists|q: int|
                    0 <= q < k && puzzle@[indexs@[q] as int] == w)),
        decreases indexs@.len() - k,
    {
        let j: usize = indexs[k];
        let v: u8 = puzzle[j];
        flags.set(v as usize, false);
        k = k + 1;
        assert forall|w: u8| w < 10 implies #[trigger] flags@[w as int] == (before[w as int] && !(
        exists|q: int| 0 <= q < k && puzzle@[indexs@[q] as int] == w)) by {
            if w == v {
                assert(puzzle@[indexs@[k - 1] as int] == w);
            } else {
                if exists|q: int| 0 <= q < k && puzzle@[indexs@[q] as int] == w {
                    let q = choose|q: int| 0 <= q < k && puzzle@[indexs@[q] as int] == w;
                    assert(q != k - 1);
                }
            }
        }
    }
}

impl GridTask {
    /// A fresh task for the cell `index`.
    pub fn new(index: usize) -> (t: GridTask)
        ensures
            t.index == index,
            !t.done,
            !t.updated,
    {
        GridTask { index, done: false, updated: false }
    }

    /// One fresh task for each blank cell of `puzzle`, in ascending cell order.
    pub fn generate_tasks(puzzle: &Vec<u8>) -> (r: Vec<GridTask>)
        ensures
            forall|p: int|
                0 <= p < r@.len() ==> {
                    &&& #[trigger] r@[p].index < puzzle@.len()
                    &&& puzzle@[r@[p].index as int] == 0
                    &&& !r@[p].done
                    &&& !r@[p].updated
                },
            forall|a: int, b: int| 0 <= a < b < r@.len() ==> r@[a].index < r@[b].index,
            forall|k: int|
                0 <= k < puzzle@.len() && puzzle@[k] == 0 ==> exists|p: int|
                    0 <= p < r@.len() && r@[p].index == k,
    {
        let mut todo: Vec<GridTask> = Vec::new();
        let mut index: usize = 0;
        while index < puzzle.len()
            invariant
                index <= puzzle@.len(),
                forall|p: int|
                    0 <= p < todo@.len() ==> {
                        &&& #[trigger] todo@[p].index < index
                        &&& puzzle@[todo@[p].index as int] == 0
                        &&& !todo@[p].done
                        &&& !todo@[p].updated
                    },
                forall|a: int, b: int| 0 <= a < b < todo@.len() ==> todo@[a].index < todo@[b].index,
                forall|k: int|
                    0 <= k < index && puzzle@[k] == 0 ==> exists|p: int|
                        0 <= p < todo@.len() && todo@[p].index == k,
            decreases puzzle@.len() - index,
        {
            let ghost before = todo@;
            if puzzle[index] == 0 {
                todo.push(GridTask::new(index));
                assert(todo@[todo@.len() - 1].index == index);
            }
            index = index + 1;
            assert forall|k: int| 0 <= k < index && puzzle@[k] == 0 implies exists|p: int|
                0 <= p < todo@.len() && todo@[p].index == k by {
                if k < index - 1 {
                    let p = choose|p: int| 0 <= p < before.len() && before[p].index == k;
                    assert(todo@[p] == before[p]);
                } else {
                    assert(todo@[todo@.len() - 1].index == k);
                }
            }
        }
        todo
    }

    /// The candidate list recorded for the task's cell.
    pub fn possible_values(&self, map: &CandidateMap) -> (r: Vec<u8>)
        requires
            map@.contains_key(self.index),
        ensures
            r@ == map@[self.index]@,
    {
        match map.get(&self.index) {
            Some(vs) => {
                let r = vs.clone();
                assert(r@ =~= map@[self.index]@);
                r
            },
            None => Vec::new(),
        }
    }

    /// Computes the candidates of the task's cell from the values of its row,
    /// column and block, and records them in `map`.
    fn calculate_possible_values(&self, puzzle: &Vec<u8>, map: &mut CandidateMap) -> (r: Vec<u8>)
        requires
            grid_wf(puzzle@),
            self.index < 81,
        ensures
            r@ == candidate_list(puzzle@, self.index as int),
            final(map)@.dom() == old(map)@.dom().insert(self.index),
            final(map)@[self.index]@ == r@,
            forall|j: usize| j != self.index ==> #[trigger] final(map)@.contains_key(j) ==> final(map)@[j] == old(map)@[j],
    {
        let i = self.index;
        let ghost g = puzzle@;
        let mut flags: Vec<bool> = Vec::new();
        let mut k: usize = 0;
        while k < 10
            invariant
                k <= 10,
                flags@.len() == k,
                forall|q: int| 0 <= q < k ==> flags@[q],
            decreases 10 - k,
        {
            flags.push(true);
            k = k + 1;
        }
        let rows = conjugate_row_index(i);
        let cols = conjugate_col_index(i);
        let blocks = conjugate_block_index(i);
        proof {
            lemma_group_entries(i as int);
        }
        clear_present(&mut flags, puzzle, &rows);
        clear_present(&mut flags, puzzle, &cols);
        clear_present(&mut flags, puzzle, &blocks);
        let mut values: Vec<u8> = Vec::new();
        let mut v: u8 = 1;
        while v < 10
            invariant
                1 <= v <= 10,
                flags@.len() == 10,
                forall|w: u8|
                    1 <= w <= 9 ==> #[trigger] flags@[w as int] == is_candidate(g, i as int, w),
                values@ + candidates_from(g, i as int, v as int) == candidate_list(g, i as int),
            decreases 10 - v,
        {
            let ghost before = values@;
            assert(candidates_from(g, i as int, v as int) == (if is_candidate(g, i as int, v) {
                seq![v] + candidates_from(g, i as int, v as int + 1)
            } else {
                candidates_from(g, i as int, v as int + 1)
            }));
            if flags[v as usize] {
                values.push(v);
                assert(values@ + candidates_from(g, i as int, v as int + 1) =~= before + (seq![v]
                    + candidates_from(g, i as int, v as int + 1)));
            }
            v = v + 1;
        }
        assert(candidates_from(g, i as int, 10) =~= Seq::<u8>::empty());
        assert(values@ =~= candidate_list(g, i as int));
        let recorded = values.clone();
        assert(recorded@ =~= values@);
        map.insert(i, recorded);
        values
    }

    /// The digit left for the task's cell alone within the group `indexs`, or 0.
    fn exclusive_in_group(&self, puzzle: &Vec<u8>, map: &CandidateMap, indexs: &Vec<usize>) -> (r: u8)
        requires
            grid_wf(puzzle@),
            map_wf(map@),
            map@.contains_key(self.index),
            forall|k: int| 0 <= k < indexs@.len() ==> #[trigger] indexs@[k] < 81,
        ensures
            has_unique_hidden(puzzle@, map@, self.index, indexs@) ==> unique_hidden(
                puzzle@,
                map@,
                self.index,
                indexs@,
                r,
            ),
            !has_unique_hidden(puzzle@, map@, self.index, indexs@) ==> r == 0,
    {
        let i = self.index;
        let ghost g = puzzle@;
        let ghost m = map@;
        let ghost grp = indexs@;
        let own = self.possible_values(map);
        let mut flags: Vec<bool> = Vec::new();
        let mut k: usize = 0;
        while k < 10
            invariant
                k <= 10,
                flags@.len() == k,
                forall|q: int| 0 <= q < k ==> !flags@[q],
            decreases 10 - k,
        {
            flags.push(false);
            k = k + 1;
        }
        let mut k: usize = 0;
        while k < own.len()
            invariant
                own@ == m[i]@,
                map_wf(m),
                m.contains_key(i),
                flags@.len() == 10,
                k <= own@.len(),
                forall|w: u8| w < 10 ==> #[trigger] flags@[w as int] == own@.take(k as int).contains(w),
            decreases own@.len() - k,
        {
            let v: u8 = own[k];
            flags.set(v as usize, true);
            k = k + 1;
            assert forall|w: u8| w < 10 implies #[trigger] flags@[w as int] == own@.take(k as int).contains(w) by {
                if w == v {
                    assert(own@.take(k as int)[k - 1] == w);
                } else {
                    if own@.take(k as int).contains(w) {
                        let q = choose|q: int| 0 <= q < k && #[trigger] own@.take(k as int)[q] == w;
                        assert(own@.take(k as int - 1)[q] == w);
                    }
                    if own@.take(k as int - 1).contains(w) {
                        let q = choose|q: int| 0 <= q < k - 1 && #[trigger] own@.take(k as int - 1)[q] == w;
                        assert(own@.take(k as int)[q] == w);
                    }
                }
            }
        }
        assert(own@.take(own@.len() as int) =~= own@);
        let mut k: usize = 0;
        while k < indexs.len()
            invariant
                g == puzzle@,
                m == map@,
                grp == indexs@,
                grid_wf(g),
                map_wf(m),
                m.contains_key(i),
                forall|q: int| 0 <= q < grp.len() ==> #[trigger] grp[q] < 81,
                flags@.len() == 10,
                k <= grp.len(),
                forall|w: u8|
                    w < 10 ==> #[trigger] flags@[w as int] == (m[i]@.contains(w) && forall|q: int|
                        0 <= q < k && #[trigger] grp[q] != i && g[grp[q] as int] == 0
                            ==> m.contains_key(grp[q]) && !m[grp[q]]@.contains(w)),
            decreases grp.len() - k,
        {
            let j: usize = indexs[k];
            let ghost flags_before = flags@;
            if j != i && puzzle[j] == 0 {
                match map.get(&j) {
                    Some(vs) => {
                        let mut t: usize = 0;
                        while t < vs.len()
                            invariant
                                m.contains_key(j),
                                vs@ == m[j]@,
                                map_wf(m),
                                flags@.len() == 10,
                                t <= vs@.len(),
                                forall|w: u8|
                                    w < 10 ==> #[trigger] flags@[w as int] == (flags_before[w as int]
                                        && !vs@.take(t as int).contains(w)),
                            decreases vs@.len() - t,
                        {
                            let v: u8 = vs[t];
                            flags.set(v as usize, false);
                            t = t + 1;
                            assert forall|w: u8| w < 10 implies #[trigger] flags@[w as int] == (
                            flags_before[w as int] && !vs@.take(t as int).contains(w)) by {
                                if w == v {
                                    assert(vs@.take(t as int)[t - 1] == w);
                                } else {
                                    if vs@.take(t as int).contains(w) {
                                        let q = choose|q: int|
                                            0 <= q < t && #[trigger] vs@.take(t as int)[q] == w;
                                        assert(vs@.take(t as int - 1)[q] == w);
                                    }
                                    if vs@.take(t as int - 1).contains(w) {
                                        let q = choose|q: int|
                                            0 <= q < t - 1 && #[trigger] vs@.take(t as int - 1)[q] == w;
                                        assert(vs@.take(t as int)[q] == w);
                                    }
                                }
                            }
                        }
                        assert(vs@.take(vs@.len() as int) =~= vs@);
                    },
                    None => {
                        let mut t: usize = 0;
                        while t < 10
                            invariant
                                flags@.len() == 10,
                                t <= 10,
                                forall|w: u8|
                                    w < 10 ==> #[trigger] flags@[w as int] == (flags_before[w as int]
                                        && w >= t),
                            decreases 10 - t,
                        {
                            flags.set(t, false);
                            t = t + 1;
                        }
                    },
                }
            }
            k = k + 1;
            assert forall|w: u8| w < 10 implies #[trigger] flags@[w as int] == (m[i]@.contains(w)
                && forall|q: int|
                0 <= q < k && #[trigger] grp[q] != i && g[grp[q] as int] == 0 ==> m.contains_key(
                    grp[q],
                ) && !m[grp[q]]@.contains(w)) by {
                if flags@[w as int] {
                    assert forall|q: int|
                        0 <= q < k && #[trigger] grp[q] != i && g[grp[q] as int] == 0
                            implies m.contains_key(grp[q]) && !m[grp[q]]@.contains(w) by {
                        if q < k - 1 {
                            assert(flags_before[w as int]);
                        }
                    }
                }
            }
        }
        let mut excl: Vec<u8> = Vec::new();
        let mut w: u8 = 0;
        while w < 10
            invariant
                w <= 10,
                flags@.len() == 10,
                forall|x: u8| #[trigger] excl@.contains(x) <==> (x < w && flags@[x as int]),
                forall|a: int, b: int| 0 <= a < b < excl@.len() ==> excl@[a] < excl@[b],
                forall|a: int| 0 <= a < excl@.len() ==> #[trigger] excl@[a] < w,
            decreases 10 - w,
        {
            let ghost before = excl@;
            if flags[w as usize] {
                excl.push(w);
                assert forall|x: u8| #[trigger] excl@.contains(x) <==> (x < w + 1 && flags@[x as int]) by {
                    if x == w {
                        assert(excl@[excl@.len() - 1] == x);
                    }
                    if excl@.contains(x) && x != w {
                        let a = choose|a: int| 0 <= a < excl@.len() && excl@[a] == x;
                        assert(before[a] == x);
                        assert(before.contains(x));
                    }
                    if x < w && flags@[x as int] {
                        assert(before.contains(x));
                        let a = choose|a: int| 0 <= a < before.len() && before[a] == x;
                        assert(excl@[a] == x);
                    }
                }
            }
            w = w + 1;
        }
        assert forall|x: u8| x < 10 implies #[trigger] flags@[x as int] == hidden_in(g, m, i, grp, x) by {}
        if excl.len() == 1 {
            let r = excl[0];
            assert(excl@.contains(r));
            assert forall|x: u8| x < 10 && x != r implies !#[trigger] hidden_in(g, m, i, grp, x) by {
                if hidden_in(g, m, i, grp, x) {
                    assert(excl@.contains(x));
                }
            }
            assert(unique_hidden(g, m, i, grp, r));
            r
        } else {
            proof {
                if has_unique_hidden(g, m, i, grp) {
                    let v = choose|v: u8| unique_hidden(g, m, i, grp, v);
                    assert(excl@.contains(v));
                    assert forall|a: int| 0 <= a < excl@.len() implies excl@[a] == v by {
                        assert(excl@.contains(excl@[a]));
                    }
                    if excl@.len() >= 2 {
                        assert(excl@[0] < excl@[1]);
                    }
                }
            }
            0
        }
    }

    /// The hidden single of the task's cell, or 0 where it has none.
    fn calculate_exclusive_possible_values(&self, puzzle: &Vec<u8>, map: &CandidateMap) -> (r: u8)
        requires
            grid_wf(puzzle@),
            map_wf(map@),
            self.index < 81,
            map@.contains_key(self.index),
        ensures
            r == hidden_single(puzzle@, map@, self.index),
    {
        let i = self.index;
        let ghost g = puzzle@;
        let ghost m = map@;
        proof {
            lemma_group_entries(i as int);
        }
        let rows = conjugate_row_index(i);
        let v = self.exclusive_in_group(puzzle, map, &rows);
        if v != 0 {
            assert(has_unique_hidden(g, m, i, rows@));
            return v;
        }
        let cols = conjugate_col_index(i);
        let v = self.exclusive_in_group(puzzle, map, &cols);
        if v != 0 {
            assert(has_unique_hidden(g, m, i, cols@));
            return v;
        }
        let blocks = conjugate_block_index(i);
        let v = self.exclusive_in_group(puzzle, map, &blocks);
        if v != 0 {
            assert(has_unique_hidden(g, m, i, blocks@));
        }
        v
    }

    /// This round's attempt has finished.
    pub fn done(&self) -> (r: bool)
        ensures
            r == self.done,
    {
        self.done
    }

    /// Marks the task as due again for the next round.
    pub fn reset_done(&mut self)
        ensures
            *final(self) == (GridTask { done: false, ..*old(self) }),
    {
        self.done = false;
    }

    /// This round's attempt wrote a value into the cell.
    pub fn updated(&self) -> (r: bool)
        ensures
            r == self.updated,
    {
        self.updated
    }

    /// The cell the task works on.
    pub fn index(&self) -> (r: usize)
        ensures
            r == self.index,
    {
        self.index
    }

    /// One deduction attempt for the task's cell: records the cell's
    /// candidates, then writes the naked single, else the hidden single, if
    /// there is one.
    pub fn run(&mut self, puzzle: &mut Vec<u8>, map: &mut CandidateMap)
        requires
            grid_wf(old(puzzle)@),
            old(self).index < 81,
            map_wf(old(map)@),
        ensures
            final(self).index == old(self).index,
            final(self).done,
            final(map)@ == old(map)@.insert(old(self).index, final(map)@[old(self).index]),
            final(map)@[old(self).index]@ == candidate_list(old(puzzle)@, old(self).index as int),
            map_wf(final(map)@),
            final(self).updated == (old(self).updated || deduced_value(
                old(puzzle)@,
                final(map)@,
                old(self).index,
            ) != 0),
            deduced_value(old(puzzle)@, final(map)@, old(self).index) != 0 ==> final(puzzle)@
                == old(puzzle)@.update(
                old(self).index as int,
                deduced_value(old(puzzle)@, final(map)@, old(self).index),
            ),
            deduced_value(old(puzzle)@, final(map)@, old(self).index) == 0 ==> final(puzzle)@
                == old(puzzle)@,
    {
        let i = self.index;
        let ghost g = puzzle@;
        let possible_values = self.calculate_possible_values(puzzle, map);
        proof {
            lemma_candidates_from(g, i as int, 1);
            assert(map@ =~= old(map)@.insert(i, map@[i]));
            assert forall|j: usize| #[trigger] map@.contains_key(j) implies j < 81 && forall|k: int|
                0 <= k < map@[j]@.len() ==> 1 <= #[trigger] map@[j]@[k] <= 9 by {
                if j == i {
                    assert forall|k: int| 0 <= k < map@[j]@.len() implies 1 <= #[trigger] map@[j]@[k]
                        <= 9 by {
                        assert(candidate_list(g, i as int).contains(map@[j]@[k]));
                    }
                }
            }
        }
        if possible_values.len() == 1 {
            puzzle.set(i, possible_values[0]);
            self.updated = true;
            self.done = true;
            return;
        }
        let exclusive_possible_value = self.calculate_exclusive_possible_values(puzzle, map);
        if exclusive_possible_value != 0 {
            puzzle.set(i, exclusive_possible_value);
            self.updated = true;
            self.done = true;
            return;
        }
        self.done = true;
    }
}

} // verus!
