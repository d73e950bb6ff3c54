use sudoku_core::coordinates::get_row_coordinates;
use sudoku_core::grid::{Notes, Puzzle};
use sudoku_core::notes_manager::NotesManager;

fn puzzle_from_rows(rows: [[u8; 9]; 9]) -> Puzzle {
    let mut flat: Vec<u8> = Vec::new();
    for row in rows.iter() {
        for v in row.iter() {
            flat.push(*v);
        }
    }
    match Puzzle::from_cells(flat) {
        Some(p) => p,
        None => panic!("cells out of range"),
    }
}

fn crafted_notes(rows: [[u16; 9]; 9]) -> Notes {
    let mut flat: Vec<u16> = Vec::new();
    for row in rows.iter() {
        for v in row.iter() {
            flat.push(*v);
        }
    }
    match Notes::from_cells(flat) {
        Some(n) => n,
        None => panic!("masks out of range"),
    }
}

fn classic_puzzle() -> Puzzle {
    puzzle_from_rows([
        [5, 3, 0, 0, 7, 0, 0, 0, 0],
        [6, 0, 0, 1, 9, 5, 0, 0, 0],
        [0, 9, 8, 0, 0, 0, 0, 6, 0],
        [8, 0, 0, 0, 6, 0, 0, 0, 3],
        [4, 0, 0, 8, 0, 3, 0, 0, 1],
        [7, 0, 0, 0, 2, 0, 0, 0, 6],
        [0, 6, 0, 0, 0, 0, 2, 8, 0],
        [0, 0, 0, 4, 1, 9, 0, 0, 5],
        [0, 0, 0, 0, 8, 0, 0, 7, 9],
    ])
}

fn bit_of(digit: u8) -> u16 {
    1u16 << (digit - 1)
}

fn same_group(r1: usize, c1: usize, r2: usize, c2: usize) -> bool {
    r1 == r2 || c1 == c2 || (r1 / 3 == r2 / 3 && c1 / 3 == c2 / 3)
}

#[test]
fn test_fill_row_constraint_scenario() {
    // Input row [5,3,0,0,7,0,0,0,0]: after fill(), cell (0,2) must exclude
    // 5, 3 and 7 from the row, and further 6, 9, 8 from its box and column,
    // leaving exactly {1, 2, 4}.
    let mut manager = NotesManager::new(classic_puzzle());
    manager.fill();
    let notes = manager.get();
    let mask = notes.get(0, 2);
    assert_eq!(mask & bit_of(5), 0);
    assert_eq!(mask & bit_of(3), 0);
    assert_eq!(mask & bit_of(7), 0);
    assert_eq!(mask, 0b000_001_011);
}

#[test]
fn test_fill_excludes_every_placed_digit() {
    // No cell's mask keeps a bit for a digit already placed elsewhere in its
    // row, column, or box.
    let puzzle = classic_puzzle();
    let mut manager = NotesManager::new(classic_puzzle());
    manager.fill();
    let notes = manager.get();
    for r1 in 0..9 {
        for c1 in 0..9 {
            for r2 in 0..9 {
                for c2 in 0..9 {
                    if (r1, c1) != (r2, c2) && same_group(r1, c1, r2, c2) {
                        let placed = puzzle.get(r2, c2);
                        if placed != 0 {
                            assert_eq!(notes.get(r1, c1) & bit_of(placed), 0);
                        }
                    }
                }
            }
        }
    }
}

#[test]
fn test_adjust_elimination_is_never_undone() {
    // Committing 5 at (4,4) removes digit 5 from the whole row, column, and
    // box; re-running the narrowing passes never re-introduces it.
    let mut manager = NotesManager::new(classic_puzzle());
    manager.fill();
    manager.adjust(4, 4, 5);
    let check = |manager: &NotesManager| {
        let notes = manager.get();
        assert_eq!(notes.get(4, 4), 0);
        for r in 0..9 {
            for c in 0..9 {
                if (r, c) != (4, 4) && same_group(4, 4, r, c) {
                    assert_eq!(notes.get(r, c) & bit_of(5), 0);
                }
            }
        }
    };
    check(&manager);
    manager.set_obvious_pairs();
    check(&manager);
    manager.use_square_methods();
    check(&manager);
}

#[test]
fn test_naked_pair_scenario() {
    // A group with masks {0b11, 0b11, 0b110, ...}: the pair {1,2} in the
    // first two cells clears bits 1 and 2 from every other cell of the row
    // and leaves the two pair cells unchanged.
    const FULL: u16 = 0b111_111_111;
    let notes = crafted_notes([
        [0b000_000_011, 0b000_000_011, 0b000_000_110, FULL, FULL, FULL, FULL, FULL, FULL],
        [FULL; 9],
        [FULL; 9],
        [FULL; 9],
        [FULL; 9],
        [FULL; 9],
        [FULL; 9],
        [FULL; 9],
        [FULL; 9],
    ]);
    let mut manager = NotesManager::with_notes(Puzzle::new(), notes);
    let progress = manager.set_obvious_pairs();
    assert!(progress);
    let after = manager.get();
    assert_eq!(after.get(0, 0), 0b000_000_011);
    assert_eq!(after.get(0, 1), 0b000_000_011);
    assert_eq!(after.get(0, 2), 0b000_000_100);
    for col in 3..9 {
        assert_eq!(after.get(0, col), 0b111_111_100);
    }
    // untouched far away from the pair's groups
    assert_eq!(after.get(4, 4), FULL);
}

#[test]
fn test_naked_triple_scenario() {
    // Three cells of row 0 hold masks {1,2}, {2,3}, {1,3}: their union has
    // three digits, so those digits leave every other cell of the row (and,
    // through the box group, the rest of the box), while the triple's own
    // cells keep their masks.
    const FULL: u16 = 0b111_111_111;
    let notes = crafted_notes([
        [0b000_000_011, 0b000_000_110, 0b000_000_101, FULL, FULL, FULL, FULL, FULL, FULL],
        [FULL; 9],
        [FULL; 9],
        [FULL; 9],
        [FULL; 9],
        [FULL; 9],
        [FULL; 9],
        [FULL; 9],
        [FULL; 9],
    ]);
    let mut manager = NotesManager::with_notes(Puzzle::new(), notes);
    let progress = manager.set_obvious_pairs();
    assert!(progress);
    let after = manager.get();
    assert_eq!(after.get(0, 0), 0b000_000_011);
    assert_eq!(after.get(0, 1), 0b000_000_110);
    assert_eq!(after.get(0, 2), 0b000_000_101);
    for col in 3..9 {
        assert_eq!(after.get(0, col), 0b111_111_000);
    }
    for row in 1..3 {
        for col in 0..3 {
            assert_eq!(after.get(row, col), 0b111_111_000);
        }
    }
    assert_eq!(after.get(4, 4), FULL);
}

#[test]
fn test_square_methods_run_hidden_pairs_only_after_pointing_stalls() {
    // Box-line reduction finds work (digit 9 confined to the middle row of
    // the first box), so the first call must not touch the hidden pair in
    // row 5. Once pointing is at a fixed point, the second call narrows the
    // pair; a third call changes nothing.
    const NO_NINE: u16 = 0b011_111_111;
    const FULL: u16 = 0b111_111_111;
    let row5: [u16; 9] = [
        0b000_010_010,  // {2, 5}
        0b000_100_100,  // {3, 6}
        0b101_001_001,  // {1, 4, 7, 9}
        0b100_000_001,  // {1, 9}
        0b010_000_100,  // {3, 8}
        0b001_011_010,  // {2, 4, 5, 7}
        0b000_010_001,  // {1, 5}
        0b000_100_010,  // {2, 6}
        0b100_000_100,  // {3, 9}
    ];
    let notes = crafted_notes([
        [NO_NINE, NO_NINE, NO_NINE, FULL, FULL, FULL, FULL, FULL, FULL],
        [FULL; 9],
        [NO_NINE, NO_NINE, NO_NINE, FULL, FULL, FULL, FULL, FULL, FULL],
        [FULL; 9],
        [FULL; 9],
        row5,
        [FULL; 9],
        [FULL; 9],
        [FULL; 9],
    ]);
    let mut manager = NotesManager::with_notes(Puzzle::new(), notes);

    assert!(manager.use_square_methods());
    let first = manager.get();
    assert_eq!(first.get(1, 3), NO_NINE);  // pointing took effect
    assert_eq!(first.get(5, 2), row5[2]);  // hidden pair untouched
    assert_eq!(first.get(5, 5), row5[5]);

    assert!(manager.use_square_methods());
    let second = manager.get();
    let pair: u16 = 0b001_001_000;  // {4, 7}
    assert_eq!(second.get(5, 2), pair);
    assert_eq!(second.get(5, 5), pair);

    assert!(!manager.use_square_methods());
}

#[test]
fn test_naked_sets_only_remove_candidates() {
    // Monotonicity: every mask after the reduction is a subset of the mask
    // before it.
    const FULL: u16 = 0b111_111_111;
    let notes = crafted_notes([
        [0b000_000_011, 0b000_000_011, 0b000_000_110, FULL, FULL, FULL, FULL, FULL, FULL],
        [0b000_011_000, FULL, 0b000_011_000, FULL, FULL, FULL, FULL, FULL, FULL],
        [FULL; 9],
        [FULL; 9],
        [FULL; 9],
        [FULL; 9],
        [FULL; 9],
        [FULL; 9],
        [FULL; 9],
    ]);
    let before = notes.clone();
    let mut manager = NotesManager::with_notes(Puzzle::new(), notes);
    manager.set_obvious_pairs();
    let after = manager.get();
    for row in 0..9 {
        for col in 0..9 {
            let b = before.get(row, col);
            let a = after.get(row, col);
            assert_eq!(a & b, a, "mask at ({}, {}) gained a candidate", row, col);
        }
    }
}

#[test]
fn test_get_hidden_finds_single_position() {
    const OTHERS: u16 = 0b000_000_011;  // {1, 2}
    let notes = crafted_notes([
        [
            OTHERS,
            OTHERS,
            OTHERS,
            0b000_001_001,  // {1, 4}: the only place for digit 4
            OTHERS,
            OTHERS,
            OTHERS,
            OTHERS,
            OTHERS,
        ],
        [0; 9],
        [0; 9],
        [0; 9],
        [0; 9],
        [0; 9],
        [0; 9],
        [0; 9],
        [0; 9],
    ]);
    let manager = NotesManager::with_notes(Puzzle::new(), notes);
    let row0 = get_row_coordinates(0);
    assert_eq!(manager.get_hidden(&row0, 4), Some((0, 3)));
    // a digit possible nowhere in the group
    assert_eq!(manager.get_hidden(&row0, 5), None);
}

#[test]
fn test_get_hidden_none_with_two_positions() {
    const OTHERS: u16 = 0b000_000_011;
    let notes = crafted_notes([
        [
            OTHERS,
            0b000_001_001,
            OTHERS,
            OTHERS,
            OTHERS,
            OTHERS,
            0b000_001_010,
            OTHERS,
            OTHERS,
        ],
        [0; 9],
        [0; 9],
        [0; 9],
        [0; 9],
        [0; 9],
        [0; 9],
        [0; 9],
        [0; 9],
    ]);
    let manager = NotesManager::with_notes(Puzzle::new(), notes);
    let row0 = get_row_coordinates(0);
    assert_eq!(manager.get_hidden(&row0, 4), None);
}

#[test]
fn test_from_cells_rejects_bad_input() {
    assert!(Puzzle::from_cells(vec![0u8; 80]).is_none());
    let mut cells = vec![0u8; 81];
    cells[17] = 10;
    assert!(Puzzle::from_cells(cells).is_none());
    assert!(Notes::from_cells(vec![0u16; 82]).is_none());
    let mut masks = vec![0u16; 81];
    masks[3] = 512;
    assert!(Notes::from_cells(masks).is_none());
}
