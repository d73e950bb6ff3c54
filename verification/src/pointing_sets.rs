//! Box-line reduction ("pointing sets"): a digit confined to one row or
//! column inside a box is cleared from the rest of that row or column
//! outside the box.

use vstd::prelude::*;
use crate::bits::{has_digit, lemma_andnot_bit, lemma_mask_bounds, lemma_shared_flag};
use crate::grid::{Notes, cell_index, lemma_progress_compose, notes_le, notes_wf, valid_cell};

verus! {

/// The union of the three masks of row `row` inside the box whose columns
/// start at `start_col`.
pub open spec fn row_union(n: Seq<u16>, row: int, start_col: int) -> u16 {
    (n[cell_index(row, start_col)] | n[cell_index(row, start_col + 1)]) | n[cell_index(
        row,
        start_col + 2,
    )]
}

/// The union of the three masks of column `col` inside the box whose rows
/// start at `start_row`.
pub open spec fn col_union(n: Seq<u16>, col: int, start_row: int) -> u16 {
    (n[cell_index(start_row, col)] | n[cell_index(start_row + 1, col)]) | n[cell_index(
        start_row + 2,
        col,
    )]
}

/// Clearing the pointing mask from row `row` outside the box of `col`.
pub open spec fn pointing_row_spec(n: Seq<u16>, note: u16, row: int, col: int) -> Seq<u16> {
    Seq::new(81, |i: int| {
        let r = i / 9;
        let c = i % 9;
        if r == row && c / 3 != col / 3 {
            n[i] & !note
        } else {
            n[i]
        }
    })
}

/// Clearing the pointing mask from column `col` outside the box of `row`.
pub open spec fn pointing_col_spec(n: Seq<u16>, note: u16, row: int, col: int) -> Seq<u16> {
    Seq::new(81, |i: int| {
        let r = i / 9;
        let c = i % 9;
        if c == col && r / 3 != row / 3 {
            n[i] & !note
        } else {
            n[i]
        }
    })
}

/// The first `i` row reductions of one box: the three band unions and their
/// pointing digits come from the grid as it stood when the box was entered.
pub open spec fn square_row_pass_upto(n: Seq<u16>, row: int, col: int, i: int) -> Seq<u16>
    decreases i,
{
    if i <= 0 {
        n
    } else {
        let prev = square_row_pass_upto(n, row, col, i - 1);
        let s = 3 * (col / 3);
        let u0 = row_union(n, row, s);
        let u1 = row_union(n, row + 1, s);
        let u2 = row_union(n, row + 2, s);
        let p = if i - 1 == 0 {
            u0 & !(u1 | u2)
        } else if i - 1 == 1 {
            u1 & !(u0 | u2)
        } else {
            u2 & !(u1 | u0)
        };
        if p != 0 {
            pointing_row_spec(prev, p, row + (i - 1), col)
        } else {
            prev
        }
    }
}

/// One box's whole row pass.
pub open spec fn square_row_pass(n: Seq<u16>, row: int, col: int) -> Seq<u16> {
    square_row_pass_upto(n, row, col, 3)
}

/// The first `i` column reductions of one box.
pub open spec fn square_col_pass_upto(n: Seq<u16>, row: int, col: int, i: int) -> Seq<u16>
    decreases i,
{
    if i <= 0 {
        n
    } else {
        let prev = square_col_pass_upto(n, row, col, i - 1);
        let s = 3 * (row / 3);
        let u0 = col_union(n, col, s);
        let u1 = col_union(n, col + 1, s);
        let u2 = col_union(n, col + 2, s);
        let p = if i - 1 == 0 {
            u0 & !(u1 | u2)
        } else if i - 1 == 1 {
            u1 & !(u0 | u2)
        } else {
            u2 & !(u1 | u0)
        };
        if p != 0 {
            pointing_col_spec(prev, p, row, col + (i - 1))
        } else {
            prev
        }
    }
}

/// One box's whole column pass.
pub open spec fn square_col_pass(n: Seq<u16>, row: int, col: int) -> Seq<u16> {
    square_col_pass_upto(n, row, col, 3)
}

/// One box of the sweep: the row pass, then the column pass.
pub open spec fn pointing_box_step(n: Seq<u16>, sx: int, sy: int) -> Seq<u16> {
    square_col_pass(square_row_pass(n, 3 * sx, 3 * sy), 3 * sx, 3 * sy)
}

/// The first `b` boxes of the sweep, in traversal order.
pub open spec fn pointing_upto(n: Seq<u16>, b: int) -> Seq<u16>
    decreases b,
{
    if b <= 0 {
        n
    } else {
        pointing_box_step(pointing_upto(n, b - 1), (b - 1) / 3, (b - 1) % 3)
    }
}

/// The whole box-line sweep over all nine boxes.
pub open spec fn pointing_spec(n: Seq<u16>) -> Seq<u16> {
    pointing_upto(n, 9)
}

pub struct Handler {
    progress: bool,
}

impl Handler {
    pub closed spec fn spec_progress(&self) -> bool {
        self.progress
    }

    pub fn new() -> (h: Handler)
        ensures
            !h.spec_progress(),
    {
        Handler { progress: false }
    }

    /// Run the pointing-set reduction over every box, rows and columns alike;
    /// the result says whether any mask changed.
    #[verifier::rlimit(50)]
    pub fn handle(&mut self, notes: &mut Notes) -> (progress: bool)
        requires
            old(notes).wf(),
        ensures
            final(notes).wf(),
            notes_le(final(notes)@, old(notes)@),
            progress == (old(self).spec_progress() || final(notes)@ != old(notes)@),
            final(self).spec_progress() == progress,
            final(notes)@ == pointing_spec(old(notes)@),
    {
        let ghost n0 = old(notes)@;
        let ghost p0 = old(self).spec_progress();
        let mut i: usize = 0;
        while i < 3
            invariant
                i <= 3,
                notes.wf(),
                notes_wf(n0),
                notes_le(notes@, n0),
                self.spec_progress() == (p0 || notes@ != n0),
                notes@ == pointing_upto(n0, 3 * i as int),
            decreases 3 - i,
        {
            let start_x = 3 * i;
            let mut j: usize = 0;
            while j < 3
                invariant
                    j <= 3,
                    start_x == 3 * i,
                    i < 3,
                    notes.wf(),
                    notes_wf(n0),
                    notes_le(notes@, n0),
                    self.spec_progress() == (p0 || notes@ != n0),
                    notes@ == pointing_upto(n0, 3 * i as int + j as int),
                decreases 3 - j,
            {
                let start_y = 3 * j;
                let ghost n_pre = notes@;
                let ghost f_pre = self.spec_progress();
                self.handle_pointing_on_square_row(notes, start_x, start_y);
                proof {
                    lemma_progress_compose(n0, n_pre, notes@, n_pre != n0, notes@ != n_pre);
                }
                let ghost n_mid = notes@;
                self.handle_pointing_on_square_col(notes, start_x, start_y);
                proof {
                    lemma_progress_compose(n0, n_mid, notes@, n_mid != n0, notes@ != n_mid);
                    assert((3 * i as int + j as int) / 3 == i as int && (3 * i as int + j as int)
                        % 3 == j as int) by (nonlinear_arith)
                        requires
                            0 <= i < 3,
                            0 <= j < 3,
                    ;
                    assert(notes@ == pointing_box_step(n_pre, i as int, j as int));
                    assert(notes@ == pointing_upto(n0, 3 * i as int + j as int + 1));
                }
                j = j + 1;
            }
            i = i + 1;
        }
        self.progress
    }

    /// Handle the three rows of the box starting at (row, col).
    fn handle_pointing_on_square_row(&mut self, notes: &mut Notes, row: usize, col: usize)
        requires
            old(notes).wf(),
            row % 3 == 0,
            row < 9,
            col < 9,
        ensures
            final(notes).wf(),
            notes_le(final(notes)@, old(notes)@),
            final(self).spec_progress() == (old(self).spec_progress() || final(notes)@ != old(
                notes)@),
            final(notes)@ == square_row_pass(old(notes)@, row as int, col as int),
    {
        let ghost n0 = old(notes)@;
        let ghost p0 = old(self).spec_progress();
        let square_notes = Self::get_square_row_notes(notes, row, col);
        let pointing = Self::get_pointing_from_notes(square_notes);
        let mut i: usize = 0;
        while i < 3
            invariant
                i <= 3,
                row % 3 == 0,
                row < 9,
                col < 9,
                notes.wf(),
                notes_wf(n0),
                notes_le(notes@, n0),
                self.spec_progress() == (p0 || notes@ != n0),
                pointing@.len() == 3,
                square_notes@.len() == 3,
                forall|j: int|
                    0 <= j < 3 ==> #[trigger] square_notes@[j] == row_union(
                        n0,
                        row as int + j,
                        3 * (col as int / 3),
                    ),
                pointing@[0] == square_notes@[0] & !(square_notes@[1] | square_notes@[2]),
                pointing@[1] == square_notes@[1] & !(square_notes@[0] | square_notes@[2]),
                pointing@[2] == square_notes@[2] & !(square_notes@[1] | square_notes@[0]),
                notes@ == square_row_pass_upto(n0, row as int, col as int, i as int),
            decreases 3 - i,
        {
            let note = pointing[i];
            if note != 0 {
                let ghost n_pre = notes@;
                self.use_pointing_set_on_row(notes, note, row + i, col);
                proof {
                    lemma_progress_compose(n0, n_pre, notes@, n_pre != n0, notes@ != n_pre);
                }
            }
            proof {
                assert(notes@ == square_row_pass_upto(n0, row as int, col as int, i + 1));
            }
            i = i + 1;
        }
    }

    /// Handle the three columns of the box starting at (row, col).
    fn handle_pointing_on_square_col(&mut self, notes: &mut Notes, row: usize, col: usize)
        requires
            old(notes).wf(),
            col % 3 == 0,
            col < 9,
            row < 9,
        ensures
            final(notes).wf(),
            notes_le(final(notes)@, old(notes)@),
            final(self).spec_progress() == (old(self).spec_progress() || final(notes)@ != old(
                notes)@),
            final(notes)@ == square_col_pass(old(notes)@, row as int, col as int),
    {
        let ghost n0 = old(notes)@;
        let ghost p0 = old(self).spec_progress();
        let square_notes = Self::get_square_col_notes(notes, row, col);
        let pointing = Self::get_pointing_from_notes(square_notes);
        let mut i: usize = 0;
        while i < 3
            invariant
                i <= 3,
                col % 3 == 0,
                col < 9,
                row < 9,
                notes.wf(),
                notes_wf(n0),
                notes_le(notes@, n0),
                self.spec_progress() == (p0 || notes@ != n0),
                pointing@.len() == 3,
                square_notes@.len() == 3,
                forall|j: int|
                    0 <= j < 3 ==> #[trigger] square_notes@[j] == col_union(
                        n0,
                        col as int + j,
                        3 * (row as int / 3),
                    ),
                pointing@[0] == square_notes@[0] & !(square_notes@[1] | square_notes@[2]),
                pointing@[1] == square_notes@[1] & !(square_notes@[0] | square_notes@[2]),
                pointing@[2] == square_notes@[2] & !(square_notes@[1] | square_notes@[0]),
                notes@ == square_col_pass_upto(n0, row as int, col as int, i as int),
            decreases 3 - i,
        {
            let note = pointing[i];
            if note != 0 {
                let ghost n_pre = notes@;
                self.use_pointing_set_on_col(notes, note, row, col + i);
                proof {
                    lemma_progress_compose(n0, n_pre, notes@, n_pre != n0, notes@ != n_pre);
                }
            }
            proof {
                assert(notes@ == square_col_pass_upto(n0, row as int, col as int, i + 1));
            }
            i = i + 1;
        }
    }

    /// Clear the pointing digits from row `row` outside the box of `col`.
    fn use_pointing_set_on_row(&mut self, notes: &mut Notes, note: u16, row: usize, col: usize)
        requires
            old(notes).wf(),
            row < 9,
            col < 9,
        ensures
            final(notes).wf(),
            forall|c2: int|
                0 <= c2 < 9 && c2 / 3 != col as int / 3 ==> final(notes)@[cell_index(
                    row as int,
                    c2,
                )] == (old(notes)@[cell_index(row as int, c2)] & !note),
            forall|r2: int, c2: int|
                valid_cell(r2, c2) && !(r2 == row as int && c2 / 3 != col as int / 3) ==> final(
                    notes)@[cell_index(r2, c2)] == old(notes)@[#[trigger] cell_index(r2, c2)],
            notes_le(final(notes)@, old(notes)@),
            final(self).spec_progress() == (old(self).spec_progress() || final(notes)@ != old(
                notes)@),
            final(notes)@ == pointing_row_spec(old(notes)@, note, row as int, col as int),
    {
        let ghost n0 = old(notes)@;
        let ghost p0 = old(self).spec_progress();
        let mut i: usize = 0;
        while i < 9
            invariant
                i <= 9,
                row < 9,
                col < 9,
                notes.wf(),
                notes_wf(n0),
                notes@.len() == 81,
                forall|c2: int|
                    0 <= c2 < i && c2 / 3 != col as int / 3 ==> notes@[cell_index(row as int, c2)]
                        == (n0[cell_index(row as int, c2)] & !note),
                forall|r2: int, c2: int|
                    valid_cell(r2, c2) && !(r2 == row as int && 0 <= c2 < i && c2 / 3 != col as int
                        / 3) ==> notes@[cell_index(r2, c2)] == n0[#[trigger] cell_index(r2, c2)],
                self.spec_progress() == (p0 || notes@ != n0),
            decreases 9 - i,
        {
            if i / 3 != col / 3 {
                let ghost n_before = notes@;
                let cell = notes.get(row, i);
                proof {
                    assert(cell == n0[cell_index(row as int, i as int)]);
                }
                if (cell & note) != 0 {
                    self.progress = true;
                }
                proof {
                    lemma_mask_bounds(cell, note);
                    lemma_shared_flag(cell, note);
                }
                notes.set(row, i, cell & !note);
                proof {
                    if cell & note == 0 {
                        assert(cell & !note == cell);
                        assert(notes@ =~= n_before);
                    } else {
                        assert(notes@[cell_index(row as int, i as int)] != n0[cell_index(
                            row as int,
                            i as int,
                        )]);
                    }
                }
            }
            i = i + 1;
        }
        proof {
            assert forall|k: int| 0 <= k < 81 implies #[trigger] crate::bits::mask_le(
                notes@[k],
                n0[k],
            ) by {
                let r2 = k / 9;
                let c2 = k % 9;
                assert(valid_cell(r2, c2) && cell_index(r2, c2) == k);
                if r2 == row as int && c2 / 3 != col as int / 3 {
                    assert(notes@[k] == (n0[k] & !note));
                    assert forall|d: int| #[trigger] has_digit(notes@[k], d) implies has_digit(
                        n0[k],
                        d,
                    ) by {
                        if 1 <= d <= 9 {
                            lemma_andnot_bit(n0[k], note, (d - 1) as u16);
                        }
                    }
                } else {
                    assert(notes@[cell_index(r2, c2)] == n0[cell_index(r2, c2)]);
                }
            }
            assert forall|k: int|
                0 <= k < 81 implies notes@[k] == #[trigger] pointing_row_spec(
                n0,
                note,
                row as int,
                col as int,
            )[k] by {
                let r2 = k / 9;
                let c2 = k % 9;
                assert(valid_cell(r2, c2) && cell_index(r2, c2) == k);
                if !(r2 == row as int && c2 / 3 != col as int / 3) {
                    assert(notes@[cell_index(r2, c2)] == n0[cell_index(r2, c2)]);
                }
            }
            assert(notes@ =~= pointing_row_spec(n0, note, row as int, col as int));
        }
    }

    /// Clear the pointing digits from column `col` outside the box of `row`.
    fn use_pointing_set_on_col(&mut self, notes: &mut Notes, note: u16, row: usize, col: usize)
        requires
            old(notes).wf(),
            row < 9,
            col < 9,
        ensures
            final(notes).wf(),
            forall|r2: int|
                0 <= r2 < 9 && r2 / 3 != row as int / 3 ==> final(notes)@[cell_index(
                    r2,
                    col as int,
                )] == (old(notes)@[cell_index(r2, col as int)] & !note),
            forall|r2: int, c2: int|
                valid_cell(r2, c2) && !(c2 == col as int && r2 / 3 != row as int / 3) ==> final(
                    notes)@[cell_index(r2, c2)] == old(notes)@[#[trigger] cell_index(r2, c2)],
            notes_le(final(notes)@, old(notes)@),
            final(self).spec_progress() == (old(self).spec_progress() || final(notes)@ != old(
                notes)@),
            final(notes)@ == pointing_col_spec(old(notes)@, note, row as int, col as int),
    {
        let ghost n0 = old(notes)@;
        let ghost p0 = old(self).spec_progress();
        let mut i: usize = 0;
        while i < 9
            invariant
                i <= 9,
                row < 9,
                col < 9,
                notes.wf(),
                notes_wf(n0),
                notes@.len() == 81,
                forall|r2: int|
                    0 <= r2 < i && r2 / 3 != row as int / 3 ==> notes@[cell_index(r2, col as int)]
                        == (n0[cell_index(r2, col as int)] & !note),
                forall|r2: int, c2: int|
                    valid_cell(r2, c2) && !(c2 == col as int && 0 <= r2 < i && r2 / 3 != row as int
                        / 3) ==> notes@[cell_index(r2, c2)] == n0[#[trigger] cell_index(r2, c2)],
                self.spec_progress() == (p0 || notes@ != n0),
            decreases 9 - i,
        {
            if i / 3 != row / 3 {
                let ghost n_before = notes@;
                let cell = notes.get(i, col);
                proof {
                    assert(cell == n0[cell_index(i as int, col as int)]);
                }
                if (cell & note) != 0 {
                    self.progress = true;
                }
                proof {
                    lemma_mask_bounds(cell, note);
                    lemma_shared_flag(cell, note);
                }
                notes.set(i, col, cell & !note);
                proof {
                    if cell & note == 0 {
                        assert(cell & !note == cell);
                        assert(notes@ =~= n_before);
                    } else {
                        assert(notes@[cell_index(i as int, col as int)] != n0[cell_index(
                            i as int,
                            col as int,
                        )]);
                    }
                }
            }
            i = i + 1;
        }
        proof {
            assert forall|k: int| 0 <= k < 81 implies #[trigger] crate::bits::mask_le(
                notes@[k],
                n0[k],
            ) by {
                let r2 = k / 9;
                let c2 = k % 9;
                assert(valid_cell(r2, c2) && cell_index(r2, c2) == k);
                if c2 == col as int && r2 / 3 != row as int / 3 {
                    assert(notes@[k] == (n0[k] & !note));
                    assert forall|d: int| #[trigger] has_digit(notes@[k], d) implies has_digit(
                        n0[k],
                        d,
                    ) by {
                        if 1 <= d <= 9 {
                            lemma_andnot_bit(n0[k], note, (d - 1) as u16);
                        }
                    }
                } else {
                    assert(notes@[cell_index(r2, c2)] == n0[cell_index(r2, c2)]);
                }
            }
            assert forall|k: int|
                0 <= k < 81 implies notes@[k] == #[trigger] pointing_col_spec(
                n0,
                note,
                row as int,
                col as int,
            )[k] by {
                let r2 = k / 9;
                let c2 = k % 9;
                assert(valid_cell(r2, c2) && cell_index(r2, c2) == k);
                if !(c2 == col as int && r2 / 3 != row as int / 3) {
                    assert(notes@[cell_index(r2, c2)] == n0[cell_index(r2, c2)]);
                }
            }
            assert(notes@ =~= pointing_col_spec(n0, note, row as int, col as int));
        }
    }

    /// The three row unions of the box starting at (row, col).
    pub fn get_square_row_notes(notes: &Notes, row: usize, col: usize) -> (r: [u16; 3])
        requires
            notes.wf(),
            row < 7,
            col < 9,
        ensures
            r@.len() == 3,
            forall|i: int|
                0 <= i < 3 ==> r@[i] == row_union(notes@, row + i, 3 * (col as int / 3)),
    {
        let n0 = Self::get_notes_on_single_square_row(notes, row, col);
        let n1 = Self::get_notes_on_single_square_row(notes, row + 1, col);
        let n2 = Self::get_notes_on_single_square_row(notes, row + 2, col);
        [n0, n1, n2]
    }

    /// The three column unions of the box starting at (row, col).
    pub fn get_square_col_notes(notes: &Notes, row: usize, col: usize) -> (r: [u16; 3])
        requires
            notes.wf(),
            col < 7,
            row < 9,
        ensures
            r@.len() == 3,
            forall|i: int|
                0 <= i < 3 ==> r@[i] == col_union(notes@, col + i, 3 * (row as int / 3)),
    {
        let n0 = Self::get_notes_on_single_square_col(notes, col, row);
        let n1 = Self::get_notes_on_single_square_col(notes, col + 1, row);
        let n2 = Self::get_notes_on_single_square_col(notes, col + 2, row);
        [n0, n1, n2]
    }

    /// Union of the three masks of row `row` inside the box of `start_col`.
    pub fn get_notes_on_single_square_row(notes: &Notes, row: usize, start_col: usize) -> (r: u16)
        requires
            notes.wf(),
            row < 9,
            start_col < 9,
        ensures
            r == row_union(notes@, row as int, 3 * (start_col as int / 3)),
            r < 512,
    {
        let cols = Self::square_iter(start_col);
        let a = notes.get(row, cols[0]);
        let b = notes.get(row, cols[1]);
        let c = notes.get(row, cols[2]);
        proof {
            lemma_mask_bounds(a, b);
            lemma_mask_bounds(a | b, c);
        }
        (a | b) | c
    }

    /// Union of the three masks of column `col` inside the box of `start_row`.
    pub fn get_notes_on_single_square_col(notes: &Notes, col: usize, start_row: usize) -> (r: u16)
        requires
            notes.wf(),
            col < 9,
            start_row < 9,
        ensures
            r == col_union(notes@, col as int, 3 * (start_row as int / 3)),
            r < 512,
    {
        let rows = Self::square_iter(start_row);
        let a = notes.get(rows[0], col);
        let b = notes.get(rows[1], col);
        let c = notes.get(rows[2], col);
        proof {
            lemma_mask_bounds(a, b);
            lemma_mask_bounds(a | b, c);
        }
        (a | b) | c
    }

    /// The digits confined to exactly one of the three band unions.
    pub fn get_pointing_from_notes(notes: [u16; 3]) -> (pointing: [u16; 3])
        ensures
            pointing@.len() == 3,
            pointing@[0] == notes@[0] & !(notes@[1] | notes@[2]),
            pointing@[1] == notes@[1] & !(notes@[0] | notes@[2]),
            pointing@[2] == notes@[2] & !(notes@[1] | notes@[0]),
    {
        let a = notes[0] & !(notes[1] | notes[2]);
        let b = notes[1] & !(notes[0] | notes[2]);
        let c = notes[2] & !(notes[1] | notes[0]);
        [a, b, c]
    }

    /// The three positions of the 3-cell band containing `position`.
    pub fn square_iter(position: usize) -> (r: [usize; 3])
        requires
            position < 9,
        ensures
            r@.len() == 3,
            forall|i: int| 0 <= i < 3 ==> r@[i] == 3 * (position as int / 3) + i,
    {
        let start = position - (position % 3);
        [start, start + 1, start + 2]
    }
}

} // verus!
