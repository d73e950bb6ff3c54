//! The 9x9 puzzle grid and its candidate grid, stored row-major.

use vstd::prelude::*;
use crate::bits::mask_le;

verus! {

/// Flat row-major index of cell (r, c).
pub open spec fn cell_index(r: int, c: int) -> int {
    r * 9 + c
}

pub open spec fn valid_cell(r: int, c: int) -> bool {
    0 <= r < 9 && 0 <= c < 9
}

pub open spec fn same_row(r1: int, c1: int, r2: int, c2: int) -> bool {
    r1 == r2
}

pub open spec fn same_col(r1: int, c1: int, r2: int, c2: int) -> bool {
    c1 == c2
}

pub open spec fn same_box(r1: int, c1: int, r2: int, c2: int) -> bool {
    r1 / 3 == r2 / 3 && c1 / 3 == c2 / 3
}

/// The two cells share a row, a column, or a box.
pub open spec fn sees(r1: int, c1: int, r2: int, c2: int) -> bool {
    same_row(r1, c1, r2, c2) || same_col(r1, c1, r2, c2) || same_box(r1, c1, r2, c2)
}

/// Digit `d` is already placed somewhere in row `r`.
pub open spec fn digit_in_row(p: Seq<u8>, r: int, d: int) -> bool {
    exists|c: int| 0 <= c < 9 && p[cell_index(r, c)] as int == d
}

/// Digit `d` is already placed somewhere in column `c`.
pub open spec fn digit_in_col(p: Seq<u8>, c: int, d: int) -> bool {
    exists|r: int| 0 <= r < 9 && p[cell_index(r, c)] as int == d
}

/// Digit `d` is already placed somewhere in the box of cell (r, c).
pub open spec fn digit_in_box(p: Seq<u8>, r: int, c: int, d: int) -> bool {
    exists|r2: int, c2: int|
        valid_cell(r2, c2) && same_box(r, c, r2, c2) && p[cell_index(r2, c2)] as int == d
}

/// A well-formed puzzle: 81 cells, each 0 (empty) or a digit 1..=9.
pub open spec fn puzzle_wf(p: Seq<u8>) -> bool {
    p.len() == 81 && forall|i: int| 0 <= i < 81 ==> #[trigger] p[i] <= 9
}

/// A well-formed candidate grid: 81 nine-bit masks.
pub open spec fn notes_wf(n: Seq<u16>) -> bool {
    n.len() == 81 && forall|i: int| 0 <= i < 81 ==> #[trigger] n[i] < 512
}

/// Every cell of `a` keeps only candidates that `b` also had.
pub open spec fn notes_le(a: Seq<u16>, b: Seq<u16>) -> bool {
    a.len() == 81 && b.len() == 81 && forall|i: int|
        0 <= i < 81 ==> #[trigger] mask_le(a[i], b[i])
}

/// Cells already holding a digit are never overwritten.
pub open spec fn clues_preserved(pre: Seq<u8>, post: Seq<u8>) -> bool {
    pre.len() == 81 && post.len() == 81 && forall|i: int|
        0 <= i < 81 && pre[i] != 0 ==> post[i] == #[trigger] pre[i]
}

pub proof fn lemma_notes_le_trans(a: Seq<u16>, b: Seq<u16>, c: Seq<u16>)
    requires
        notes_le(a, b),
        notes_le(b, c),
    ensures
        notes_le(a, c),
{
    assert forall|i: int| 0 <= i < 81 implies #[trigger] mask_le(a[i], c[i]) by {
        assert(mask_le(a[i], b[i]));
        assert(mask_le(b[i], c[i]));
    }
}

pub proof fn lemma_clues_preserved_trans(a: Seq<u8>, b: Seq<u8>, c: Seq<u8>)
    requires
        clues_preserved(a, b),
        clues_preserved(b, c),
    ensures
        clues_preserved(a, c),
{
    assert forall|i: int| 0 <= i < 81 && a[i] != 0 implies c[i] == #[trigger] a[i] by {
        assert(b[i] == a[i]);
        assert(c[i] == b[i]);
    }
}

/// Candidate grids that narrow each other are the same grid.
pub proof fn lemma_notes_le_antisym(a: Seq<u16>, b: Seq<u16>)
    requires
        notes_wf(a),
        notes_wf(b),
        notes_le(a, b),
        notes_le(b, a),
    ensures
        a == b,
{
    assert forall|i: int| 0 <= i < 81 implies a[i] == b[i] by {
        assert(mask_le(a[i], b[i]));
        assert(mask_le(b[i], a[i]));
        crate::bits::lemma_mask_ext(a[i], b[i]);
    }
    assert(a =~= b);
}

/// Chain two candidate-narrowing steps: some step changed the grid exactly
/// when the combined pass changed it.
pub proof fn lemma_progress_compose(n0: Seq<u16>, n1: Seq<u16>, n2: Seq<u16>, f1: bool, f2: bool)
    requires
        notes_wf(n0),
        notes_wf(n1),
        notes_wf(n2),
        notes_le(n1, n0),
        notes_le(n2, n1),
        f1 == (n1 != n0),
        f2 == (n2 != n1),
    ensures
        (f1 || f2) == (n2 != n0),
        notes_le(n2, n0),
{
    lemma_notes_le_trans(n2, n1, n0);
    if f1 && n2 == n0 {
        assert(notes_le(n0, n1));
        lemma_notes_le_antisym(n1, n0);
    }
}

/// The candidate grid after a commit of `value` at (row, col): the committed
/// cell loses all its candidates, and every other cell of its row, column,
/// and box loses `value`.
pub open spec fn adjusted_notes(n: Seq<u16>, row: int, col: int, value: int) -> Seq<u16> {
    Seq::new(81, |i: int| {
        let r = i / 9;
        let c = i % 9;
        if r == row && c == col {
            0u16
        } else if sees(row, col, r, c) {
            n[i] & !(1u16 << ((value - 1) as u16))
        } else {
            n[i]
        }
    })
}

/// A commit's elimination only narrows the candidate grid.
pub proof fn lemma_adjusted_le(n: Seq<u16>, row: int, col: int, value: int)
    requires
        notes_wf(n),
        valid_cell(row, col),
        1 <= value <= 9,
    ensures
        notes_wf(adjusted_notes(n, row, col, value)),
        notes_le(adjusted_notes(n, row, col, value), n),
{
    let n2 = adjusted_notes(n, row, col, value);
    assert forall|i: int| 0 <= i < 81 implies #[trigger] n2[i] < 512 by {
        if n2[i] == (n[i] & !(1u16 << ((value - 1) as u16))) {
            crate::bits::lemma_mask_bounds(n[i], 1u16 << ((value - 1) as u16));
        }
    }
    assert forall|i: int| 0 <= i < 81 implies #[trigger] mask_le(n2[i], n[i]) by {
        assert forall|d: int| #[trigger] crate::bits::has_digit(n2[i], d) implies
            crate::bits::has_digit(n[i], d) by {
            if 1 <= d <= 9 {
                if n2[i] == 0u16 {
                    crate::bits::lemma_zero_bit((d - 1) as u16);
                } else if n2[i] == (n[i] & !(1u16 << ((value - 1) as u16))) {
                    crate::bits::lemma_clear_bit(n[i], (value - 1) as u16, (d - 1) as u16);
                }
            }
        }
    }
}

/// No cell keeps a candidate for a digit already placed on another cell of
/// its row, column, or box.
pub open spec fn group_consistent(p: Seq<u8>, n: Seq<u16>) -> bool {
    forall|r: int, c: int, r2: int, c2: int|
        #![trigger n[cell_index(r, c)], p[cell_index(r2, c2)]]
        valid_cell(r, c) && valid_cell(r2, c2) && !(r == r2 && c == c2) && sees(r, c, r2, c2) && p[
            cell_index(r2, c2)
        ] != 0 ==> !crate::bits::has_digit(n[cell_index(r, c)], p[cell_index(r2, c2)] as int)
}

/// Narrowing the candidate grid preserves group consistency.
pub proof fn lemma_group_consistent_narrow(p: Seq<u8>, n1: Seq<u16>, n2: Seq<u16>)
    requires
        group_consistent(p, n1),
        notes_le(n2, n1),
    ensures
        group_consistent(p, n2),
{
    assert forall|r: int, c: int, r2: int, c2: int|
        #![trigger n2[cell_index(r, c)], p[cell_index(r2, c2)]]
        valid_cell(r, c) && valid_cell(r2, c2) && !(r == r2 && c == c2) && sees(r, c, r2, c2) && p[
            cell_index(r2, c2)
        ] != 0 implies !crate::bits::has_digit(
        n2[cell_index(r, c)],
        p[cell_index(r2, c2)] as int,
    ) by {
        assert(mask_le(n2[cell_index(r, c)], n1[cell_index(r, c)]));
        assert(!crate::bits::has_digit(n1[cell_index(r, c)], p[cell_index(r2, c2)] as int));
    }
}

/// A commit preserves group consistency: the committed digit is eliminated
/// from exactly the cells that see the committed cell.
pub proof fn lemma_group_consistent_commit(
    p: Seq<u8>,
    n: Seq<u16>,
    row: int,
    col: int,
    value: int,
)
    requires
        group_consistent(p, n),
        p.len() == 81,
        valid_cell(row, col),
        1 <= value <= 9,
    ensures
        group_consistent(
            p.update(cell_index(row, col), value as u8),
            adjusted_notes(n, row, col, value),
        ),
{
    let p2 = p.update(cell_index(row, col), value as u8);
    let n2 = adjusted_notes(n, row, col, value);
    assert forall|r: int, c: int, r2: int, c2: int|
        #![trigger n2[cell_index(r, c)], p2[cell_index(r2, c2)]]
        valid_cell(r, c) && valid_cell(r2, c2) && !(r == r2 && c == c2) && sees(r, c, r2, c2) && p2[
            cell_index(r2, c2)
        ] != 0 implies !crate::bits::has_digit(
        n2[cell_index(r, c)],
        p2[cell_index(r2, c2)] as int,
    ) by {
        let i = cell_index(r, c);
        let i2 = cell_index(r2, c2);
        assert(i / 9 == r && i % 9 == c) by (nonlinear_arith)
            requires
                i == r * 9 + c,
                0 <= r < 9,
                0 <= c < 9,
        ;
        if i2 == cell_index(row, col) {
            assert(r2 == row && c2 == col) by (nonlinear_arith)
                requires
                    r2 * 9 + c2 == row * 9 + col,
                    0 <= r2 < 9,
                    0 <= c2 < 9,
                    0 <= row < 9,
                    0 <= col < 9,
            ;
        }
        let d = p2[i2] as int;
        if r == row && c == col {
            assert(n2[i] == 0);
            crate::bits::lemma_zero_bit((d - 1) as u16);
        } else if sees(row, col, r, c) {
            assert(n2[i] == (n[i] & !(1u16 << ((value - 1) as u16))));
            if crate::bits::has_digit(n2[i], d) {
                crate::bits::lemma_clear_bit(n[i], (value - 1) as u16, (d - 1) as u16);
                assert(crate::bits::has_digit(n[i], d) && d != value);
                if r2 == row && c2 == col {
                    assert(d == value);
                } else {
                    assert(p2[i2] == p[i2]);
                }
            }
        } else {
            assert(n2[i] == n[i]);
            if r2 == row && c2 == col {
                assert(sees(r, c, row, col));
                assert(sees(row, col, r, c));
            } else {
                assert(p2[i2] == p[i2]);
            }
        }
    }
}

/// Every digit that `post` places beyond `pre` went into an empty cell and
/// was still a candidate of that cell in `n`.
pub open spec fn commits_from(pre: Seq<u8>, post: Seq<u8>, n: Seq<u16>) -> bool {
    forall|i: int|
        0 <= i < 81 && post[i] != #[trigger] pre[i] ==> pre[i] == 0 && crate::bits::has_digit(
            n[i],
            post[i] as int,
        )
}

/// Chain two committing steps against a narrowing candidate grid: what the
/// second step places was a candidate under the first step's grid, hence
/// under the original one.
pub proof fn lemma_commits_from_compose(
    p0: Seq<u8>,
    p1: Seq<u8>,
    p2: Seq<u8>,
    n0: Seq<u16>,
    n1: Seq<u16>,
)
    requires
        clues_preserved(p0, p1),
        clues_preserved(p1, p2),
        commits_from(p0, p1, n0),
        commits_from(p1, p2, n1),
        notes_le(n1, n0),
    ensures
        commits_from(p0, p2, n0),
{
    assert forall|i: int|
        0 <= i < 81 && p2[i] != #[trigger] p0[i] implies p0[i] == 0 && crate::bits::has_digit(
        n0[i],
        p2[i] as int,
    ) by {
        if p1[i] != p0[i] {
            assert(p1[i] != 0);
            assert(p2[i] == p1[i]);
        } else {
            assert(mask_le(n1[i], n0[i]));
            assert(crate::bits::has_digit(n1[i], p2[i] as int));
        }
    }
}

/// Chain two committing steps: commits only ever fill empty cells, so some
/// step changed the puzzle exactly when the combined pass changed it.
pub proof fn lemma_fill_compose(p0: Seq<u8>, p1: Seq<u8>, p2: Seq<u8>, f1: bool, f2: bool)
    requires
        clues_preserved(p0, p1),
        clues_preserved(p1, p2),
        f1 == (p1 != p0),
        f2 == (p2 != p1),
    ensures
        (f1 || f2) == (p2 != p0),
        clues_preserved(p0, p2),
{
    lemma_clues_preserved_trans(p0, p1, p2);
    if f1 && p2 == p0 {
        assert forall|i: int| 0 <= i < 81 implies p1[i] == #[trigger] p0[i] by {
            if p1[i] != p0[i] {
                assert(p0[i] == 0);
                assert(p2[i] == p1[i]);
            }
        }
        assert(p1 =~= p0);
    }
}

/// The 9x9 grid of placed digits; 0 marks an empty cell.
pub struct Puzzle {
    cells: Vec<u8>,
}

impl View for Puzzle {
    type V = Seq<u8>;

    closed spec fn view(&self) -> Seq<u8> {
        self.cells@
    }
}

impl Puzzle {
    pub open spec fn wf(&self) -> bool {
        puzzle_wf(self@)
    }

    /// An entirely empty grid.
    pub fn new() -> (p: Puzzle)
        ensures
            p.wf(),
            p@.len() == 81,
            forall|i: int| 0 <= i < 81 ==> p@[i] == 0,
    {
        let cells: Vec<u8> = vec![0u8; 81];
        Puzzle { cells }
    }

    /// Wrap 81 row-major cell values; refused unless every value is 0..=9.
    pub fn from_cells(cells: Vec<u8>) -> (r: Option<Puzzle>)
        ensures
            match r {
                Some(p) => p.wf() && p@ == cells@,
                None => !puzzle_wf(cells@),
            },
    {
        if cells.len() != 81 {
            return None;
        }
        let mut i: usize = 0;
        while i < 81
            invariant
                i <= 81,
                cells@.len() == 81,
                forall|j: int| 0 <= j < i ==> #[trigger] cells@[j] <= 9,
            decreases 81 - i,
        {
            if cells[i] > 9 {
                return None;
            }
            i = i + 1;
        }
        Some(Puzzle { cells })
    }

    pub fn get(&self, row: usize, col: usize) -> (v: u8)
        requires
            self.wf(),
            row < 9,
            col < 9,
        ensures
            v == self@[cell_index(row as int, col as int)],
            v <= 9,
    {
        self.cells[row * 9 + col]
    }

    pub fn set(&mut self, row: usize, col: usize, value: u8)
        requires
            old(self).wf(),
            row < 9,
            col < 9,
            value <= 9,
        ensures
            final(self).wf(),
            final(self)@ == old(self)@.update(cell_index(row as int, col as int), value),
    {
        self.cells.set(row * 9 + col, value);
    }
}

impl Clone for Puzzle {
    fn clone(&self) -> (r: Self)
        ensures
            r@ == self@,
    {
        let mut cells: Vec<u8> = Vec::new();
        let mut i: usize = 0;
        while i < self.cells.len()
            invariant
                i <= self.cells@.len(),
                cells@.len() == i,
                forall|j: int| 0 <= j < i ==> cells@[j] == self.cells@[j],
            decreases self.cells@.len() - i,
        {
            cells.push(self.cells[i]);
            i = i + 1;
        }
        let r = Puzzle { cells };
        proof {
            assert(r@ =~= self@);
        }
        r
    }
}

/// The 9x9 grid of candidate masks ("notes").
pub struct Notes {
    cells: Vec<u16>,
}

impl View for Notes {
    type V = Seq<u16>;

    closed spec fn view(&self) -> Seq<u16> {
        self.cells@
    }
}

impl Notes {
    pub open spec fn wf(&self) -> bool {
        notes_wf(self@)
    }

    /// A grid with every mask empty.
    pub fn new() -> (n: Notes)
        ensures
            n.wf(),
            n@.len() == 81,
            forall|i: int| 0 <= i < 81 ==> n@[i] == 0,
    {
        let cells: Vec<u16> = vec![0u16; 81];
        Notes { cells }
    }

    /// Wrap 81 row-major masks; refused unless every mask fits in nine bits.
    pub fn from_cells(cells: Vec<u16>) -> (r: Option<Notes>)
        ensures
            match r {
                Some(n) => n.wf() && n@ == cells@,
                None => !notes_wf(cells@),
            },
    {
        if cells.len() != 81 {
            return None;
        }
        let mut i: usize = 0;
        while i < 81
            invariant
                i <= 81,
                cells@.len() == 81,
                forall|j: int| 0 <= j < i ==> #[trigger] cells@[j] < 512,
            decreases 81 - i,
        {
            if cells[i] >= 512 {
                return None;
            }
            i = i + 1;
        }
        Some(Notes { cells })
    }

    pub fn get(&self, row: usize, col: usize) -> (v: u16)
        requires
            self.wf(),
            row < 9,
            col < 9,
        ensures
            v == self@[cell_index(row as int, col as int)],
            v < 512,
    {
        self.cells[row * 9 + col]
    }

    pub fn set(&mut self, row: usize, col: usize, value: u16)
        requires
            old(self).wf(),
            row < 9,
            col < 9,
            value < 512,
        ensures
            final(self).wf(),
            final(self)@ == old(self)@.update(cell_index(row as int, col as int), value),
    {
        self.cells.set(row * 9 + col, value);
    }
}

impl Clone for Notes {
    fn clone(&self) -> (r: Self)
        ensures
            r@ == self@,
    {
        let mut cells: Vec<u16> = Vec::new();
        let mut i: usize = 0;
        while i < self.cells.len()
            invariant
                i <= self.cells@.len(),
                cells@.len() == i,
                forall|j: int| 0 <= j < i ==> cells@[j] == self.cells@[j],
            decreases self.cells@.len() - i,
        {
            cells.push(self.cells[i]);
            i = i + 1;
        }
        let r = Notes { cells };
        proof {
            assert(r@ =~= self@);
        }
        r
    }
}

} // verus!
