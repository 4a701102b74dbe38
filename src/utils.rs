use vstd::prelude::*;

verus! {

/// The nine cell indices of the row that holds cell `i`, left to right.
#[verifier::opaque]
pub open spec fn row_indices(i: int) -> Seq<usize> {
    Seq::new(9, |k: int| ((i / 9) * 9 + k) as usize)
}

/// The nine cell indices of the column that holds cell `i`, top to bottom.
#[verifier::opaque]
pub open spec fn col_indices(i: int) -> Seq<usize> {
    Seq::new(9, |k: int| (i % 9 + 9 * k) as usize)
}

/// Index of the top-left cell of the 3x3 block that holds cell `i`.
#[verifier::opaque]
pub open spec fn block_origin(i: int) -> int {
    ((i / 9) / 3) * 27 + ((i % 9) / 3) * 3
}

/// The nine cell indices of the 3x3 block that holds cell `i`, in row-major order.
#[verifier::opaque]
pub open spec fn block_indices(i: int) -> Seq<usize> {
    Seq::new(9, |k: int| (block_origin(i) + (k / 3) * 9 + k % 3) as usize)
}

/// Indices of the cells in the same row as cell `i`, the cell itself included.
pub fn conjugate_row_index(i: usize) -> (r: Vec<usize>)
    requires
        i < 81,
    ensures
        r@ == row_indices(i as int),
{
    reveal(row_indices);
    let head: usize = (i / 9) * 9;
    let mut r: Vec<usize> = Vec::new();
    let mut k: usize = 0;
    while k < 9
        invariant
            k <= 9,
            head == (i / 9) * 9,
            head <= 72,
            r@ == row_indices(i as int).take(k as int),
        decreases 9 - k,
    {
        r.push(head + k);
        k = k + 1;
        reveal(row_indices);
        assert(r@ =~= row_indices(i as int).take(k as int));
    }
    assert(r@ =~= row_indices(i as int));
    r
}

/// Indices of the cells in the same column as cell `i`, the cell itself included.
pub fn conjugate_col_index(i: usize) -> (r: Vec<usize>)
    requires
        i < 81,
    ensures
        r@ == col_indices(i as int),
{
    reveal(col_indices);
    let head: usize = i % 9;
    let mut r: Vec<usize> = Vec::new();
    let mut n: usize = head;
    let mut k: usize = 0;
    while n < 81
        invariant
            head == i % 9,
            n == head + 9 * k,
            k <= 9,
            r@ == col_indices(i as int).take(k as int),
        decreases 9 - k,
    {
        r.push(n);
        n = n + 9;
        k = k + 1;
        reveal(col_indices);
        assert(r@ =~= col_indices(i as int).take(k as int));
    }
    assert(k == 9);
    assert(r@ =~= col_indices(i as int));
    r
}

/// Indices of the cells in the same 3x3 block as cell `i`, the cell itself
/// included, in row-major order.
pub fn conjugate_block_index(i: usize) -> (r: Vec<usize>)
    requires
        i < 81,
    ensures
        r@ == block_indices(i as int),
{
    reveal(block_indices);
    reveal(block_origin);
    let y: usize = i % 9;
    let y: usize = (y / 3) * 3;
    let x: usize = i / 9;
    let x: usize = (x / 3) * 3;
    let origin: usize = x * 9 + y;
    assert(origin == block_origin(i as int));
    assert(origin <= 60);
    let mut r: Vec<usize> = Vec::new();
    let mut a: usize = 0;
    while a < 3
        invariant
            a <= 3,
            origin == block_origin(i as int),
            origin <= 60,
            r@ == block_indices(i as int).take(3 * a as int),
        decreases 3 - a,
    {
        let n: usize = origin + a * 9;
        let mut b: usize = 0;
        while b < 3
            invariant
                a < 3,
                b <= 3,
                n == origin + a * 9,
                origin == block_origin(i as int),
                origin <= 60,
                r@ == block_indices(i as int).take(3 * a + b),
            decreases 3 - b,
        {
            r.push(n + b);
            b = b + 1;
            reveal(block_indices);
            reveal(block_origin);
            assert(r@ =~= block_indices(i as int).take(3 * a + b));
        }
        a = a + 1;
    }
    assert(r@ =~= block_indices(i as int));
    r
}

/// The cell value that a puzzle character stands for: a decimal digit gives
/// its value, any other character a blank (0).
pub open spec fn cell_of_char(c: char) -> u8 {
    if '0' <= c && c <= '9' {
        (c as int - '0' as int) as u8
    } else {
        0
    }
}

/// The character that shows a cell value: '.' for a blank, else the digit.
pub open spec fn char_of_cell(n: u8) -> char {
    if n == 0 {
        '.'
    } else {
        (n as int + '0' as int) as char
    }
}

/// Relies on `String::from_iter`: the string holds the given characters in order.
#[verifier::external_body]
fn string_from_chars(chars: Vec<char>) -> (r: String)
    ensures
        r@ == chars@,
{
    String::from_iter(chars)
}

/// Reads a puzzle string into cell values, one per character.
pub fn str_to_vecu8(sudoku: &str) -> (r: Vec<u8>)
    ensures
        r@ == sudoku@.map_values(|c: char| cell_of_char(c)),
{
    let n: usize = sudoku.unicode_len();
    let mut r: Vec<u8> = Vec::new();
    let mut k: usize = 0;
    while k < n
        invariant
            n == sudoku@.len(),
            k <= n,
            r@ == sudoku@.take(k as int).map_values(|c: char| cell_of_char(c)),
        decreases n - k,
    {
        let c: char = sudoku.get_char(k);
        let v: u8 = if '0' <= c && c <= '9' {
            ((c as u32) - ('0' as u32)) as u8
        } else {
            0
        };
        r.push(v);
        k = k + 1;
        assert(r@ =~= sudoku@.take(k as int).map_values(|c: char| cell_of_char(c)));
    }
    assert(sudoku@.take(n as int) =~= sudoku@);
    r
}

/// Writes cell values as a puzzle string: '.' for a blank, else the digit.
pub fn vecu8_to_str(vec: &Vec<u8>) -> (r: String)
    requires
        forall|k: int| 0 <= k < vec@.len() ==> vec@[k] <= 9,
    ensures
        r@ == vec@.map_values(|n: u8| char_of_cell(n)),
{
    let mut chars: Vec<char> = Vec::new();
    let mut k: usize = 0;
    while k < vec.len()
        invariant
            k <= vec@.len(),
            forall|j: int| 0 <= j < vec@.len() ==> vec@[j] <= 9,
            chars@ == vec@.take(k as int).map_values(|n: u8| char_of_cell(n)),
        decreases vec@.len() - k,
    {
        let n: u8 = vec[k];
        let c: char = if n == 0 {
            '.'
        } else {
            (n + 48) as char
        };
        chars.push(c);
        k = k + 1;
        assert(chars@ =~= vec@.take(k as int).map_values(|n: u8| char_of_cell(n)));
    }
    assert(vec@.take(k as int) =~= vec@);
    string_from_chars(chars)
}

/// The line above, between and below the bands of three rows.
pub open spec fn border_line() -> Seq<char> {
    seq!['+', '-', '-', '-', '-', '-', '-', '+', '-', '-', '-', '-', '-', '-', '+', '-', '-', '-', '-', '-', '-', '+']
}

/// What the box shows for the character at position `i` of `t`: a row start
/// (line break, band border, left edge) where `i` begins a row, the
/// character after a space, and a block edge after every third column.
pub open spec fn box_piece(t: Seq<char>, i: int) -> Seq<char> {
    let start = if i % 9 == 0 {
        let brk = if i != 0 {
            seq!['\n'] + if i % 27 == 0 {
                border_line() + seq!['\n']
            } else {
                Seq::empty()
            }
        } else {
            Seq::empty()
        };
        brk + seq!['|']
    } else {
        Seq::empty()
    };
    let edge = if (i + 1) % 3 == 0 {
        seq!['|']
    } else {
        Seq::empty()
    };
    start + seq![' ', t[i]] + edge
}

/// The pieces of the first `n` characters of `t`, in order.
pub open spec fn box_pieces(t: Seq<char>, n: int) -> Seq<char>
    decreases n,
{
    if n <= 0 {
        Seq::empty()
    } else {
        box_pieces(t, n - 1) + box_piece(t, n - 1)
    }
}

/// A puzzle text drawn as a 9x9 box, with a border around every band of
/// three rows and an edge after every third column, each line ended by a
/// line break.
pub open spec fn box_text(t: Seq<char>) -> Seq<char> {
    border_line() + seq!['\n'] + box_pieces(t, t.len() as int) + seq!['\n'] + border_line() + seq![
        '\n',
    ]
}

fn push_border_line(v: &mut Vec<char>)
    ensures
        final(v)@ == old(v)@ + border_line(),
{
    let mut k: usize = 0;
    while k < 22
        invariant
            k <= 22,
            v@ == old(v)@ + border_line().take(k as int),
        decreases 22 - k,
    {
        let c: char = if k % 7 == 0 {
            '+'
        } else {
            '-'
        };
        assert(border_line()[k as int] == c);
        v.push(c);
        k = k + 1;
        assert(v@ =~= old(v)@ + border_line().take(k as int));
    }
    assert(border_line().take(22) =~= border_line());
}

/// The puzzle text drawn as a 9x9 box with block separators.
pub fn render(sudoku: &str) -> (r: String)
    ensures
        r@ == box_text(sudoku@),
{
    let t = Ghost(sudoku@);
    let n: usize = sudoku.unicode_len();
    let mut chars: Vec<char> = Vec::new();
    push_border_line(&mut chars);
    chars.push('\n');
    assert(chars@ =~= border_line() + seq!['\n'] + box_pieces(t@, 0));
    let mut i: usize = 0;
    while i < n
        invariant
            t@ == sudoku@,
            n == t@.len(),
            i <= n,
            chars@ == border_line() + seq!['\n'] + box_pieces(t@, i as int),
        decreases n - i,
    {
        let ghost before = chars@;
        if i % 9 == 0 {
            if i != 0 {
                chars.push('\n');
                if i % 27 == 0 {
                    push_border_line(&mut chars);
                    chars.push('\n');
                }
            }
            chars.push('|');
        }
        let c: char = sudoku.get_char(i);
        chars.push(' ');
        chars.push(c);
        if (i + 1) % 3 == 0 {
            chars.push('|');
        }
        assert(chars@ =~= before + box_piece(t@, i as int));
        i = i + 1;
        assert(chars@ =~= border_line() + seq!['\n'] + box_pieces(t@, i as int));
    }
    chars.push('\n');
    push_border_line(&mut chars);
    chars.push('\n');
    assert(chars@ =~= box_text(sudoku@));
    string_from_chars(chars)
}

} // verus!
