use sudoku_core::grid::Notes;
use sudoku_core::pointing_sets::Handler;

fn notes_from_rows(rows: [[u16; 9]; 9]) -> Notes {
    let mut flat: Vec<u16> = Vec::new();
    for row in rows.iter() {
        for v in row.iter() {
            flat.push(*v);
        }
    }
    match Notes::from_cells(flat) {
        Some(n) => n,
        None => panic!("masks out of range"),
    }
}

fn notes1() -> Notes {
    notes_from_rows([
        [
            0, 0, 0b000_001_011, 0b000_100_010, 0, 0b010_101_010, 0b110_001_001, 0b100_001_011,
            0b010_001_010,
        ],
        [0, 0b001_001_010, 0b001_001_010, 0, 0, 0, 0b011_001_100, 0b000_001_110, 0b011_001_010],
        [
            0b000_000_011, 0, 0, 0b000_000_110, 0b000_001_100, 0b000_001_010, 0b001_011_101, 0,
            0b001_001_010,
        ],
        [
            0, 0b000_010_011, 0b100_010_011, 0b101_010_000, 0, 0b001_001_001, 0b101_011_000,
            0b100_011_010, 0,
        ],
        [0, 0b000_010_010, 0b100_110_010, 0, 0b000_010_000, 0, 0b101_010_000, 0b100_010_010, 0],
        [
            0, 0b000_010_001, 0b100_010_101, 0b100_010_000, 0, 0b000_001_001, 0b110_011_000,
            0b100_011_000, 0,
        ],
        [
            0b100_000_101, 0, 0b101_011_101, 0b001_010_100, 0b000_010_100, 0b001_000_000, 0, 0,
            0b000_001_000,
        ],
        [0b000_000_110, 0b011_000_010, 0b001_000_110, 0, 0, 0, 0b000_100_100, 0b000_000_100, 0],
        [
            0b000_000_111, 0b000_011_011, 0b000_011_111, 0b000_110_110, 0, 0b000_100_010,
            0b000_101_101, 0, 0,
        ],
    ])
}

#[test]
fn test_squre_iter() {
    assert_eq!(Handler::square_iter(2), [0, 1, 2]);
    assert_eq!(Handler::square_iter(3), [3, 4, 5]);
}

#[test]
fn test_pointing() {
    assert_eq!(Handler::get_pointing_from_notes([0, 0, 0]), [0, 0, 0]);
    assert_eq!(
        Handler::get_pointing_from_notes([0b111_111_111, 0b111_111_111, 0b111_111_111]),
        [0, 0, 0]
    );
    assert_eq!(
        Handler::get_pointing_from_notes([0b110_110_011, 0b001_110_010, 0b001_001_001]),
        [0b_110_000_000, 0, 0b_000_001_000]
    );
}

fn check_notes(notes_index: usize, cross_index: usize, actual: u16, expected: u16, name: &str) {
    assert_eq!(
        actual, expected,
        "Wrong notes for {} {}, square starting on {}, actual {:b}, expected {:b}",
        name, notes_index, cross_index, actual, expected
    );
}

fn check_row_notes(notes: &Notes, row: usize, col: usize, expected: u16) {
    let actual = Handler::get_notes_on_single_square_row(notes, row, col);
    check_notes(row, col, actual, expected, "row");
}

fn check_col_notes(notes: &Notes, row: usize, col: usize, expected: u16) {
    let actual = Handler::get_notes_on_single_square_col(notes, col, row);
    check_notes(col, row, actual, expected, "col");
}

#[test]
fn test_get_notes() {
    let sut = notes1();
    check_row_notes(&sut, 0, 0, 0b000_001_011);
    check_row_notes(&sut, 1, 0, 0b001_001_010);
    check_row_notes(&sut, 2, 0, 0b000_000_011);
    assert_eq!(
        Handler::get_square_row_notes(&sut, 0, 0),
        [0b000_001_011, 0b001_001_010, 0b000_000_011]
    );

    check_col_notes(&sut, 0, 0, 0b000_000_011);
    check_col_notes(&sut, 0, 1, 0b001_001_010);
    check_col_notes(&sut, 0, 2, 0b001_001_011);
    assert_eq!(
        Handler::get_square_col_notes(&sut, 0, 0),
        [0b000_000_011, 0b001_001_010, 0b001_001_011]
    );

    check_row_notes(&sut, 2, 3, 0b000_001_110);
    check_col_notes(&sut, 0, 6, 0b111_011_101);
    check_col_notes(&sut, 3, 8, 0);
}

#[test]
fn test_handle_clears_pointing_digits_outside_box() {
    // In the box at rows 0..3, cols 0..3, digit 9 (bit 8) is possible only in
    // the middle row of the box; box-line reduction must clear digit 9 from
    // the rest of row 1 outside that box, and touch nothing else.
    const NO_NINE: u16 = 0b011_111_111;
    const FULL: u16 = 0b111_111_111;
    let mut notes = notes_from_rows([
        [NO_NINE, NO_NINE, NO_NINE, FULL, FULL, FULL, FULL, FULL, FULL],
        [FULL, FULL, FULL, FULL, FULL, FULL, FULL, FULL, FULL],
        [NO_NINE, NO_NINE, NO_NINE, FULL, FULL, FULL, FULL, FULL, FULL],
        [FULL; 9],
        [FULL; 9],
        [FULL; 9],
        [FULL; 9],
        [FULL; 9],
        [FULL; 9],
    ]);
    let mut handler = Handler::new();
    let progress = handler.handle(&mut notes);
    assert!(progress);
    // inside the box: digit 9 stays possible in the middle row
    assert_eq!(notes.get(1, 0), FULL);
    assert_eq!(notes.get(1, 2), FULL);
    // outside the box: digit 9 cleared from the rest of row 1
    assert_eq!(notes.get(1, 3), NO_NINE);
    assert_eq!(notes.get(1, 8), NO_NINE);
    // other cells untouched
    assert_eq!(notes.get(0, 0), NO_NINE);
    assert_eq!(notes.get(0, 4), FULL);
    assert_eq!(notes.get(4, 4), FULL);
}

#[test]
fn test_handle_without_pointing_digit_changes_nothing() {
    let mut notes = notes_from_rows([[0b111_111_111; 9]; 9]);
    let mut handler = Handler::new();
    let progress = handler.handle(&mut notes);
    assert!(!progress);
    for row in 0..9 {
        for col in 0..9 {
            assert_eq!(notes.get(row, col), 0b111_111_111);
        }
    }
}
