use sudoku_core::grid::Notes;
use sudoku_core::hidden_sets::{candidate, use_hidden_sets};

fn build_notes(rows: [[u16; 9]; 9]) -> Notes {
    let mut flat: Vec<u16> = Vec::new();
    for row in rows.iter() {
        for v in row.iter() {
            flat.push(*v);
        }
    }
    match Notes::from_cells(flat) {
        Some(n) => n,
        None => panic!("masks out of range"),
    }
}

#[test]
fn test_check_candidate() {
    assert_eq!(candidate(0, 1), 0b11);
    assert_eq!(candidate(8, 6), 0b101_000_000);
}

#[test]
fn test_hidden_pair_narrows_both_cells() {
    // In row 0, digits 4 and 7 are candidates only at positions 2 and 5;
    // the hidden-pair handler must rewrite both cells to exactly {4, 7} and
    // drop the extra candidates they held. The remaining cells carry masks
    // chosen so that no other hidden pair exists in any group.
    let row0: [u16; 9] = [
        0b000_010_010,  // {2, 5}
        0b000_100_100,  // {3, 6}
        0b101_001_001,  // {1, 4, 7, 9}
        0b100_000_001,  // {1, 9}
        0b010_000_100,  // {3, 8}
        0b001_011_010,  // {2, 4, 5, 7}
        0b000_010_001,  // {1, 5}
        0b000_100_010,  // {2, 6}
        0b100_000_100,  // {3, 9}
    ];
    let mut notes = build_notes([
        row0,
        [0; 9],
        [0; 9],
        [0; 9],
        [0; 9],
        [0; 9],
        [0; 9],
        [0; 9],
        [0; 9],
    ]);
    let progress = use_hidden_sets(&mut notes);
    assert!(progress);
    let pair: u16 = 0b001_001_000;  // {4, 7}
    assert_eq!(notes.get(0, 2), pair);
    assert_eq!(notes.get(0, 5), pair);
    for col in [0, 1, 3, 4, 6, 7, 8] {
        assert_eq!(notes.get(0, col), row0[col]);
    }
}

#[test]
fn test_no_hidden_pair_changes_nothing() {
    let mut notes = build_notes([[0b111_111_111; 9]; 9]);
    let progress = use_hidden_sets(&mut notes);
    assert!(!progress);
    for row in 0..9 {
        for col in 0..9 {
            assert_eq!(notes.get(row, col), 0b111_111_111);
        }
    }
}
