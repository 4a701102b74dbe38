use sudoku_solver_rust::{
    conjugate_block_index, conjugate_col_index, conjugate_row_index, render, str_to_vecu8,
    vecu8_to_str,
};

#[test]
fn test_str_to_vecu8() {
    let input = ".5..83.17...1..4..3.4..56.8....3...9.9.8245....6....7...9....5...729..861.36.72.4";

    let expected_output: Vec<u8> = vec![
        0, 5, 0, 0, 8, 3, 0, 1, 7,
        0, 0, 0, 1, 0, 0, 4, 0, 0,
        3, 0, 4, 0, 0, 5, 6, 0, 8,
        0, 0, 0, 0, 3, 0, 0, 0, 9,
        0, 9, 0, 8, 2, 4, 5, 0, 0,
        0, 0, 6, 0, 0, 0, 0, 7, 0,
        0, 0, 9, 0, 0, 0, 0, 5, 0,
        0, 0, 7, 2, 9, 0, 0, 8, 6,
        1, 0, 3, 6, 0, 7, 2, 0, 4,
    ];

    assert_eq!(str_to_vecu8(&input), expected_output)
}

#[test]
fn test_vecu8_to_str() {
    let input: Vec<u8> = vec![
        0, 5, 0, 0, 8, 3, 0, 1, 7,
        0, 0, 0, 1, 0, 0, 4, 0, 0,
        3, 0, 4, 0, 0, 5, 6, 0, 8,
        0, 0, 0, 0, 3, 0, 0, 0, 9,
        0, 9, 0, 8, 2, 4, 5, 0, 0,
        0, 0, 6, 0, 0, 0, 0, 7, 0,
        0, 0, 9, 0, 0, 0, 0, 5, 0,
        0, 0, 7, 2, 9, 0, 0, 8, 6,
        1, 0, 3, 6, 0, 7, 2, 0, 4,
    ];

    let expected_output = ".5..83.17...1..4..3.4..56.8....3...9.9.8245....6....7...9....5...729..861.36.72.4";

    assert_eq!(vecu8_to_str(&input), expected_output)
}

#[test]
fn test_same_row_index() {
    let inputs = vec![0, 79];
    let expected_outputs = vec![
        vec![0, 1, 2, 3, 4, 5, 6, 7, 8],
        vec![72, 73, 74, 75, 76, 77, 78, 79, 80],
    ];

    for (input, expected_output) in inputs.iter().zip(expected_outputs) {
        assert_eq!(conjugate_row_index(*input), expected_output);
    }
}

#[test]
fn test_same_col_index() {
    let inputs = vec![0, 77];
    let expected_outputs = vec![
        vec![0, 9, 18, 27, 36, 45, 54, 63, 72],
        vec![5, 14, 23, 32, 41, 50, 59, 68, 77],
    ];

    for (input, expected_output) in inputs.iter().zip(expected_outputs) {
        assert_eq!(conjugate_col_index(*input), expected_output);
    }
}

#[test]
fn test_same_block_index() {
    let inputs = vec![41, 77, 70];
    let expected_outputs = vec![
        vec![30, 31, 32, 39, 40, 41, 48, 49, 50],
        vec![57, 58, 59, 66, 67, 68, 75, 76, 77],
        vec![60, 61, 62, 69, 70, 71, 78, 79, 80],
    ];

    for (input, expected_output) in inputs.iter().zip(expected_outputs) {
        assert_eq!(conjugate_block_index(*input), expected_output);
    }
}

#[test]
fn geometry_of_first_cell_and_centre_block() {
    assert_eq!(conjugate_row_index(0), (0..9).collect::<Vec<usize>>());
    assert_eq!(conjugate_col_index(0), vec![0, 9, 18, 27, 36, 45, 54, 63, 72]);
    assert_eq!(conjugate_block_index(41), vec![30, 31, 32, 39, 40, 41, 48, 49, 50]);
}

#[test]
fn geometry_of_last_cell() {
    assert_eq!(conjugate_row_index(80), vec![72, 73, 74, 75, 76, 77, 78, 79, 80]);
    assert_eq!(conjugate_col_index(80), vec![8, 17, 26, 35, 44, 53, 62, 71, 80]);
    assert_eq!(conjugate_block_index(80), vec![60, 61, 62, 69, 70, 71, 78, 79, 80]);
}

#[test]
fn str_to_vecu8_reads_zero_and_placeholders_as_blank() {
    assert_eq!(str_to_vecu8("0.x9"), vec![0, 0, 0, 9]);
    assert_eq!(str_to_vecu8(""), Vec::<u8>::new());
}

#[test]
fn vecu8_to_str_writes_digits_and_dots() {
    assert_eq!(vecu8_to_str(&vec![0, 1, 9, 0]), ".19.");
    assert_eq!(vecu8_to_str(&Vec::new()), "");
}

#[test]
fn test_show() {
    let input =
        ".....5..3..9....4..81.4.......7.......4..2..68...14.3.......2...4...6..79...5..1.";
    let expected = [
        "+------+------+------+",
        "| . . .| . . 5| . . 3|",
        "| . . 9| . . .| . 4 .|",
        "| . 8 1| . 4 .| . . .|",
        "+------+------+------+",
        "| . . .| 7 . .| . . .|",
        "| . . 4| . . 2| . . 6|",
        "| 8 . .| . 1 4| . 3 .|",
        "+------+------+------+",
        "| . . .| . . .| 2 . .|",
        "| . 4 .| . . 6| . . 7|",
        "| 9 . .| . 5 .| . 1 .|",
        "+------+------+------+",
        "",
    ]
    .join("\n");
    assert_eq!(render(input), expected);
}

#[test]
fn render_of_short_text() {
    assert_eq!(render(""), "+------+------+------+\n\n+------+------+------+\n");
    assert_eq!(render("12"), "+------+------+------+\n| 1 2\n+------+------+------+\n");
}
