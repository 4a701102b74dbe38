use vstd::prelude::*;
use vstd::arithmetic::div_mod::{lemma_fundamental_div_mod, lemma_fundamental_div_mod_converse};
use vstd::set_lib::{lemma_int_range, lemma_len_subset, set_int_range};

use crate::utils::{block_indices, block_origin, col_indices, row_indices};

verus! {

/// A grid of 81 cells, each 0 (blank) or a digit 1 to 9.
pub open spec fn grid_wf(g: Seq<u8>) -> bool {
    &&& g.len() == 81
    &&& forall|k: int| 0 <= k < 81 ==> g[k] <= 9
}

/// Some cell of the group `grp` holds the value `v` in grid `g`.
pub open spec fn group_has(g: Seq<u8>, grp: Seq<usize>, v: u8) -> bool {
    exists|k: int| 0 <= k < grp.len() && g[grp[k] as int] == v
}

/// `v` is a digit that no cell in the row, column or block of cell `i` holds.
pub open spec fn is_candidate(g: Seq<u8>, i: int, v: u8) -> bool {
    &&& 1 <= v <= 9
    &&& !group_has(g, row_indices(i), v)
    &&& !group_has(g, col_indices(i), v)
    &&& !group_has(g, block_indices(i), v)
}

/// The candidates of cell `i` from the digit `v` up to 9, in ascending order.
pub open spec fn candidates_from(g: Seq<u8>, i: int, v: int) -> Seq<u8>
    decreases 10 - v,
{
    if v >= 10 || v < 1 {
        Seq::empty()
    } else if is_candidate(g, i, v as u8) {
        seq![v as u8] + candidates_from(g, i, v + 1)
    } else {
        candidates_from(g, i, v + 1)
    }
}

/// The candidates of cell `i`, in ascending order.
pub open spec fn candidate_list(g: Seq<u8>, i: int) -> Seq<u8> {
    candidates_from(g, i, 1)
}

/// The elements of `s` rise strictly from left to right.
pub open spec fn strictly_ascending(s: Seq<u8>) -> bool {
    forall|a: int, b: int| 0 <= a < b < s.len() ==> s[a] < s[b]
}

pub open spec fn same_row(i: int, j: int) -> bool {
    i / 9 == j / 9
}

pub open spec fn same_col(i: int, j: int) -> bool {
    i % 9 == j % 9
}

pub open spec fn same_block(i: int, j: int) -> bool {
    block_origin(i) == block_origin(j)
}

/// Cells `i` and `j` share a row, a column or a block.
pub open spec fn peers(i: int, j: int) -> bool {
    same_row(i, j) || same_col(i, j) || same_block(i, j)
}

/// No two distinct cells that are peers hold the same digit.
pub open spec fn consistent(g: Seq<u8>) -> bool {
    forall|i: int, j: int|
        0 <= i < 81 && 0 <= j < 81 && i != j && peers(i, j) && g[i] != 0 ==> g[i] != g[j]
}

/// Every cell holds a digit 1 to 9.
pub open spec fn complete(g: Seq<u8>) -> bool {
    &&& g.len() == 81
    &&& forall|k: int| 0 <= k < 81 ==> 1 <= #[trigger] g[k] <= 9
}

/// A filled grid in which no two peers share a digit.
pub open spec fn is_solution(s: Seq<u8>) -> bool {
    complete(s) && consistent(s)
}

/// `s` keeps every filled cell of `g`.
pub open spec fn extends(s: Seq<u8>, g: Seq<u8>) -> bool {
    &&& s.len() == 81
    &&& g.len() == 81
    &&& forall|k: int| 0 <= k < 81 && g[k] != 0 ==> s[k] == g[k]
}

/// The digit `d` stands in exactly one cell of the group `grp`.
pub open spec fn digit_once(s: Seq<u8>, grp: Seq<usize>, d: u8) -> bool {
    &&& exists|k: int| 0 <= k < 9 && s[#[trigger] grp[k] as int] == d
    &&& forall|a: int, b: int|
        0 <= a < 9 && 0 <= b < 9 && s[#[trigger] grp[a] as int] == d && s[#[trigger] grp[b] as int]
            == d ==> a == b
}

/// Each digit 1 to 9 stands in exactly one cell of the group `grp`.
pub open spec fn digits_once(s: Seq<u8>, grp: Seq<usize>) -> bool {
    forall|d: u8| 1 <= d <= 9 ==> #[trigger] digit_once(s, grp, d)
}

/// Every row, column and block holds each digit 1 to 9 exactly once.
pub open spec fn units_hold_each_digit_once(s: Seq<u8>) -> bool {
    forall|i: int|
        0 <= i < 81 ==> {
            &&& digits_once(s, row_indices(i))
            &&& digits_once(s, col_indices(i))
            &&& digits_once(s, block_indices(i))
        }
}

proof fn lemma_entry_in_groups(i: int, k: int)
    requires
        0 <= i < 81,
        0 <= k < 9,
    ensures
        row_indices(i)[k] < 81,
        same_row(i, row_indices(i)[k] as int),
        col_indices(i)[k] < 81,
        same_col(i, col_indices(i)[k] as int),
        block_indices(i)[k] < 81,
        same_block(i, block_indices(i)[k] as int),
{
    reveal(row_indices);
    reveal(col_indices);
    reveal(block_indices);
    reveal(block_origin);
    let r = i / 9;
    let c = i % 9;
    lemma_fundamental_div_mod_converse((r * 9 + k), 9, r, k);
    lemma_fundamental_div_mod_converse((c + 9 * k), 9, k, c);
    let rr = r / 3;
    let cc = c / 3;
    lemma_fundamental_div_mod_converse(k, 3, k / 3, k % 3);
    let j = block_origin(i) + (k / 3) * 9 + k % 3;
    assert(j == (3 * rr + k / 3) * 9 + (3 * cc + k % 3));
    lemma_fundamental_div_mod_converse(j, 9, 3 * rr + k / 3, 3 * cc + k % 3);
    lemma_fundamental_div_mod_converse(j / 9, 3, rr, k / 3);
    lemma_fundamental_div_mod_converse(j % 9, 3, cc, k % 3);
}

proof fn lemma_block_offsets_distinct(a: int, b: int)
    requires
        0 <= a < 9,
        0 <= b < 9,
        a != b,
    ensures
        (a / 3) * 9 + a % 3 != (b / 3) * 9 + b % 3,
{
    lemma_fundamental_div_mod(a, 3);
    lemma_fundamental_div_mod(b, 3);
    if (a / 3) * 9 + a % 3 == (b / 3) * 9 + b % 3 {
        let x = (a / 3) * 9 + a % 3;
        lemma_fundamental_div_mod_converse(x, 9, a / 3, a % 3);
        lemma_fundamental_div_mod_converse(x, 9, b / 3, b % 3);
    }
}

proof fn lemma_position_in_groups(i: int, j: int)
    requires
        0 <= i < 81,
        0 <= j < 81,
    ensures
        row_indices(i).len() == 9,
        col_indices(i).len() == 9,
        block_indices(i).len() == 9,
        0 <= j % 9 < 9,
        0 <= j / 9 < 9,
        0 <= ((j / 9) % 3) * 3 + (j % 9) % 3 < 9,
        same_row(i, j) ==> row_indices(i)[j % 9] == j,
        same_col(i, j) ==> col_indices(i)[j / 9] == j,
        same_block(i, j) ==> block_indices(i)[((j / 9) % 3) * 3 + (j % 9) % 3] == j,
{
    reveal(row_indices);
    reveal(col_indices);
    reveal(block_indices);
    reveal(block_origin);
    lemma_fundamental_div_mod(j, 9);
    let r = j / 9;
    let c = j % 9;
    lemma_fundamental_div_mod(r, 3);
    lemma_fundamental_div_mod(c, 3);
    let p = (r % 3) * 3 + c % 3;
    lemma_fundamental_div_mod_converse(p, 3, r % 3, c % 3);
}

/// Each entry of the three groups of a cell is a cell that shares that group.
pub proof fn lemma_group_entries(i: int)
    requires
        0 <= i < 81,
    ensures
        row_indices(i).len() == 9,
        col_indices(i).len() == 9,
        block_indices(i).len() == 9,
        forall|k: int|
            #![trigger row_indices(i)[k]]
            #![trigger col_indices(i)[k]]
            #![trigger block_indices(i)[k]]
            0 <= k < 9 ==> {
                &&& row_indices(i)[k] < 81
                &&& same_row(i, row_indices(i)[k] as int)
                &&& col_indices(i)[k] < 81
                &&& same_col(i, col_indices(i)[k] as int)
                &&& block_indices(i)[k] < 81
                &&& same_block(i, block_indices(i)[k] as int)
            },
{
    assert forall|k: int| 0 <= k < 9 implies {
        &&& #[trigger] row_indices(i)[k] < 81
        &&& same_row(i, row_indices(i)[k] as int)
        &&& col_indices(i)[k] < 81
        &&& same_col(i, col_indices(i)[k] as int)
        &&& block_indices(i)[k] < 81
        &&& same_block(i, block_indices(i)[k] as int)
    } by {
        lemma_entry_in_groups(i, k);
    }
    reveal(row_indices);
    reveal(col_indices);
    reveal(block_indices);
}

/// The nine entries of each group of a cell are distinct.
pub proof fn lemma_group_entries_distinct(i: int)
    requires
        0 <= i < 81,
    ensures
        row_indices(i).len() == 9,
        col_indices(i).len() == 9,
        block_indices(i).len() == 9,
        forall|a: int, b: int|
            #![trigger row_indices(i)[a], row_indices(i)[b]]
            #![trigger col_indices(i)[a], col_indices(i)[b]]
            #![trigger block_indices(i)[a], block_indices(i)[b]]
            0 <= a < 9 && 0 <= b < 9 && a != b ==> {
                &&& row_indices(i)[a] != row_indices(i)[b]
                &&& col_indices(i)[a] != col_indices(i)[b]
                &&& block_indices(i)[a] != block_indices(i)[b]
            },
{
    assert forall|a: int, b: int| 0 <= a < 9 && 0 <= b < 9 && a != b implies {
        &&& #[trigger] row_indices(i)[a] != #[trigger] row_indices(i)[b]
        &&& col_indices(i)[a] != col_indices(i)[b]
        &&& block_indices(i)[a] != block_indices(i)[b]
    } by {
        reveal(row_indices);
        reveal(col_indices);
        reveal(block_indices);
        reveal(block_origin);
        lemma_block_offsets_distinct(a, b);
        assert(0 <= block_origin(i) <= 60);
    }
    reveal(row_indices);
    reveal(col_indices);
    reveal(block_indices);
}

/// The candidate list from `v` holds exactly the candidates from `v` to 9, in
/// strictly ascending order.
pub proof fn lemma_candidates_from(g: Seq<u8>, i: int, v: int)
    requires
        1 <= v,
    ensures
        forall|w: u8|
            #[trigger] candidates_from(g, i, v).contains(w) <==> (v <= w && is_candidate(g, i, w)),
        strictly_ascending(candidates_from(g, i, v)),
        forall|k: int|
            0 <= k < candidates_from(g, i, v).len() ==> v <= #[trigger] candidates_from(g, i, v)[k]
                <= 9,
    decreases 10 - v,
{
    if v < 10 {
        lemma_candidates_from(g, i, v + 1);
        let rest = candidates_from(g, i, v + 1);
        if is_candidate(g, i, v as u8) {
            let all = seq![v as u8] + rest;
            assert forall|w: u8| all.contains(w) <==> (v <= w && is_candidate(g, i, w)) by {
                if all.contains(w) {
                    let k = choose|k: int| 0 <= k < all.len() && all[k] == w;
                    if k > 0 {
                        assert(rest[k - 1] == w);
                        assert(rest.contains(w));
                    }
                }
                if v <= w && is_candidate(g, i, w) {
                    if w == v {
                        assert(all[0] == w);
                    } else {
                        assert(rest.contains(w));
                        let k = choose|k: int| 0 <= k < rest.len() && rest[k] == w;
                        assert(all[k + 1] == w);
                    }
                }
            }
        } else {
            assert forall|w: u8| rest.contains(w) <==> (v <= w && is_candidate(g, i, w)) by {
                if v <= w && is_candidate(g, i, w) {
                    assert(w != v);
                }
            }
        }
    }
}

/// Nine distinct digits take every digit 1 to 9.
proof fn lemma_nine_distinct_digits(vals: Seq<u8>, d: u8)
    requires
        vals.len() == 9,
        forall|k: int| 0 <= k < 9 ==> 1 <= #[trigger] vals[k] <= 9,
        forall|a: int, b: int| 0 <= a < 9 && 0 <= b < 9 && a != b ==> vals[a] != vals[b],
        1 <= d <= 9,
    ensures
        exists|k: int| 0 <= k < 9 && vals[k] == d,
{
    let iv = vals.map_values(|x: u8| x as int);
    assert(iv.no_duplicates());
    iv.unique_seq_to_set();
    if !(exists|k: int| 0 <= k < 9 && vals[k] == d) {
        let r = set_int_range(1, 10).remove(d as int);
        lemma_int_range(1, 10);
        assert(iv.to_set().subset_of(r)) by {
            assert forall|x: int| iv.to_set().contains(x) implies r.contains(x) by {
                let k = choose|k: int| 0 <= k < iv.len() && iv[k] == x;
                assert(vals[k] as int == x);
            }
        }
        lemma_len_subset(iv.to_set(), r);
    }
}

proof fn lemma_group_digits_once(s: Seq<u8>, i: int, grp: Seq<usize>)
    requires
        is_solution(s),
        0 <= i < 81,
        grp.len() == 9,
        forall|k: int| 0 <= k < 9 ==> #[trigger] grp[k] < 81,
        forall|a: int, b: int|
            0 <= a < 9 && 0 <= b < 9 && a != b ==> #[trigger] grp[a] != #[trigger] grp[b]
                && peers(grp[a] as int, grp[b] as int),
    ensures
        digits_once(s, grp),
{
    let vals = Seq::new(9, |k: int| s[grp[k] as int]);
    assert forall|a: int, b: int| 0 <= a < 9 && 0 <= b < 9 && a != b implies vals[a]
        != vals[b] by {
        assert(grp[a] != grp[b]);
    }
    assert forall|d: u8| 1 <= d <= 9 implies #[trigger] digit_once(s, grp, d) by {
        lemma_nine_distinct_digits(vals, d);
        let k = choose|k: int| 0 <= k < 9 && vals[k] == d;
        assert(s[grp[k] as int] == d);
        assert forall|a: int, b: int|
            0 <= a < 9 && 0 <= b < 9 && s[#[trigger] grp[a] as int] == d && s[#[trigger] grp[
                b] as int] == d implies a == b by {
            if a != b {
                assert(vals[a] != vals[b]);
            }
        }
    }
}

/// In a solution every row, column and block holds each digit exactly once.
pub proof fn lemma_solution_units(s: Seq<u8>)
    requires
        is_solution(s),
    ensures
        units_hold_each_digit_once(s),
{
    assert forall|i: int| 0 <= i < 81 implies {
        &&& digits_once(s, row_indices(i))
        &&& digits_once(s, col_indices(i))
        &&& digits_once(s, block_indices(i))
    } by {
        lemma_group_entries(i);
        lemma_group_entries_distinct(i);
        lemma_group_digits_once(s, i, row_indices(i));
        lemma_group_digits_once(s, i, col_indices(i));
        lemma_group_digits_once(s, i, block_indices(i));
    }
}

/// A peer `j` of cell `i` holds a value that the groups of `i` show.
proof fn lemma_peer_value_shown(g: Seq<u8>, i: int, j: int)
    requires
        0 <= i < 81,
        0 <= j < 81,
        peers(i, j),
    ensures
        group_has(g, row_indices(i), g[j]) || group_has(g, col_indices(i), g[j]) || group_has(
            g,
            block_indices(i),
            g[j],
        ),
{
    lemma_position_in_groups(i, j);
    if same_row(i, j) {
        assert(row_indices(i)[j % 9] == j);
    } else if same_col(i, j) {
        assert(col_indices(i)[j / 9] == j);
    } else {
        assert(block_indices(i)[((j / 9) % 3) * 3 + (j % 9) % 3] == j);
    }
}

/// Writing a candidate into a blank cell keeps a consistent grid consistent.
pub proof fn lemma_candidate_keeps_consistent(g: Seq<u8>, i: int, v: u8)
    requires
        g.len() == 81,
        consistent(g),
        0 <= i < 81,
        g[i] == 0,
        is_candidate(g, i, v),
    ensures
        consistent(g.update(i, v)),
{
    let h = g.update(i, v);
    assert forall|a: int, b: int|
        0 <= a < 81 && 0 <= b < 81 && a != b && peers(a, b) && h[a] != 0 implies h[a]
        != h[b] by {
        if a == i {
            lemma_peer_value_shown(g, i, b);
        } else if b == i {
            assert(peers(b, a));
            lemma_peer_value_shown(g, i, a);
        }
    }
}

/// The value that a solution gives a blank cell is one of its candidates.
pub proof fn lemma_solution_value_is_candidate(g: Seq<u8>, s: Seq<u8>, i: int)
    requires
        is_solution(s),
        extends(s, g),
        0 <= i < 81,
        g[i] == 0,
    ensures
        is_candidate(g, i, s[i]),
{
    lemma_group_entries(i);
    let v = s[i];
    if group_has(g, row_indices(i), v) {
        let k = choose|k: int| 0 <= k < 9 && g[row_indices(i)[k] as int] == v;
        let j = row_indices(i)[k] as int;
        assert(s[j] == v);
        assert(peers(i, j));
    }
    if group_has(g, col_indices(i), v) {
        let k = choose|k: int| 0 <= k < 9 && g[col_indices(i)[k] as int] == v;
        let j = col_indices(i)[k] as int;
        assert(s[j] == v);
        assert(peers(i, j));
    }
    if group_has(g, block_indices(i), v) {
        let k = choose|k: int| 0 <= k < 9 && g[block_indices(i)[k] as int] == v;
        let j = block_indices(i)[k] as int;
        assert(s[j] == v);
        assert(peers(i, j));
    }
}

} // verus!
