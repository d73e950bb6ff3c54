use sudoku_core::coordinates::get_row_coordinates;
use sudoku_core::count_notes::{count, is_set};
use sudoku_core::grid::Notes;

fn notes_grid(rows: [[u16; 9]; 9]) -> Notes {
    let mut flat: Vec<u16> = Vec::new();
    for row in rows.iter() {
        for v in row.iter() {
            flat.push(*v);
        }
    }
    match Notes::from_cells(flat) {
        Some(n) => n,
        None => panic!("masks out of range"),
    }
}

#[test]
fn test_is_set_basic() {
    for i in 1..=9 {
        assert!(!is_set(0, i));
        assert!(is_set(0b111_111_111, i));
    }
}

#[test]
fn test_is_set() {
    let bitset = 0b111_000_111;
    assert!(is_set(bitset, 1));
    assert!(is_set(bitset, 8));
    assert!(!is_set(bitset, 4));
}

#[test]
fn test_count() {
    let notes = notes_grid([
        [
            0, 0, 0b000_001_011, 0b000_100_010, 0, 0b010_101_010, 0b110_001_001, 0b100_001_011,
            0b010_001_010,
        ],
        [0, 0b001_001_010, 0b001_001_010, 0, 0, 0, 0b011_001_100, 0b000_001_110, 0b011_001_010],
        [
            0b000_000_011, 0, 0, 0b000_000_110, 0b000_001_100, 0b000_001_010, 0b001_011_101, 0,
            0b001_001_010,
        ],
        [0, 0, 0b100_010_011, 0b101_010_000, 0, 0b001_001_001, 0b101_011_000, 0b100_011_010, 0],
        [0, 0b000_010_010, 0b100_110_010, 0, 0b000_010_000, 0, 0b101_010_000, 0b100_010_010, 0],
        [0, 0b000_010_001, 0b100_010_101, 0b100_010_000, 0, 0b000_001_001, 0b110_011_000, 0, 0],
        [0, 0, 0b101_011_101, 0b001_010_100, 0b000_010_100, 0b001_000_000, 0, 0, 0b000_001_000],
        [0b000_000_110, 0b011_000_010, 0b001_000_110, 0, 0, 0, 0b000_100_100, 0b000_000_100, 0],
        [0, 0, 0b000_011_111, 0b000_110_110, 0, 0b000_100_010, 0, 0, 0],
    ]);

    let coordinates = get_row_coordinates(2);
    let actual = count(&notes, &coordinates);
    let expected: Vec<u16> = vec![
        0b001_000_001,
        0b100_101_001,
        0b001_011_000,
        0b101_110_000,
        0b001_000_000,
        0,
        0b101_000_000,
        0,
        0,
    ];
    assert_eq!(actual, expected);
}
