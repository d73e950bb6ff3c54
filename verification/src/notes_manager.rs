//! The candidate manager: owns the puzzle and its candidate grid, and
//! provides the elimination primitives that the solver composes.

use vstd::prelude::*;
use crate::bits::{
    FILLED_BITSET, count_ones, has_digit, lemma_and_bit, lemma_clear_bit, lemma_full_bit,
    lemma_mask_bounds, lemma_shared_flag, lemma_test_bit, lemma_zero_bit, mask_le, popcount,
};
use crate::coordinates::{
    Coordinates, Point, all_coordinates, coord_index, coord_member, coord_member_upto, coords_wf,
    digit_in_coords, digit_in_coords_upto, get_square_coordinates, is_box_coords, is_col_coords,
    is_row_coords, lemma_box_digits, lemma_box_member, lemma_box_member_same_box,
    lemma_cell_index_injective, lemma_col_digits, lemma_col_member, lemma_coord_index_distinct,
    lemma_coord_member_full, lemma_digit_in_coords_full, lemma_row_digits, lemma_row_member,
    spec_group,
};
use crate::grid::{
    Notes, Puzzle, adjusted_notes, cell_index, digit_in_box, digit_in_col, digit_in_row,
    group_consistent, lemma_progress_compose, notes_le, notes_wf, puzzle_wf, sees, valid_cell,
};

verus! {

/// Masks reflecting exactly the basic row/column/box exclusion for puzzle `p`:
/// an empty cell keeps digit `d` if and only if `d` is placed nowhere in its
/// row, column, or box; a placed cell keeps nothing.
pub open spec fn notes_filled(p: Seq<u8>, n: Seq<u16>) -> bool {
    &&& n.len() == 81
    &&& forall|r: int, c: int|
        valid_cell(r, c) && p[cell_index(r, c)] != 0 ==> n[cell_index(r, c)] == 0
    &&& forall|r: int, c: int, d: int|
        #![trigger has_digit(n[cell_index(r, c)], d)]
        valid_cell(r, c) && 1 <= d <= 9 ==> (has_digit(n[cell_index(r, c)], d) <==> (p[cell_index(
            r,
            c,
        )] == 0 && !digit_in_row(p, r, d) && !digit_in_col(p, c, d) && !digit_in_box(p, r, c, d)))
}

/// After `fill`, no cell keeps a candidate for a digit already placed on
/// another cell of its row, column, or box.
pub proof fn lemma_fill_excludes_placed(
    p: Seq<u8>,
    n: Seq<u16>,
    r1: int,
    c1: int,
    r2: int,
    c2: int,
)
    requires
        puzzle_wf(p),
        notes_filled(p, n),
        valid_cell(r1, c1),
        valid_cell(r2, c2),
        !(r1 == r2 && c1 == c2),
        sees(r1, c1, r2, c2),
        p[cell_index(r2, c2)] != 0,
    ensures
        !has_digit(n[cell_index(r1, c1)], p[cell_index(r2, c2)] as int),
{
    let d = p[cell_index(r2, c2)] as int;
    assert(1 <= d <= 9);
    if r1 == r2 {
        assert(digit_in_row(p, r1, d));
    } else if c1 == c2 {
        assert(digit_in_col(p, c1, d));
    } else {
        assert(digit_in_box(p, r1, c1, d));
    }
    if has_digit(n[cell_index(r1, c1)], d) {
        assert(false);
    }
}

/// The basic fill is a function of the board: any two candidate grids that
/// satisfy the fill relation for the same board are equal.
pub proof fn lemma_notes_filled_unique(p: Seq<u8>, n1: Seq<u16>, n2: Seq<u16>)
    requires
        notes_wf(n1),
        notes_wf(n2),
        notes_filled(p, n1),
        notes_filled(p, n2),
    ensures
        n1 == n2,
{
    assert forall|i: int| 0 <= i < 81 implies n1[i] == n2[i] by {
        let r = i / 9;
        let c = i % 9;
        assert(valid_cell(r, c) && cell_index(r, c) == i);
        if p[i] != 0 {
            assert(n1[cell_index(r, c)] == 0 && n2[cell_index(r, c)] == 0);
        } else {
            assert forall|d: int| #[trigger] has_digit(n1[i], d) implies has_digit(n2[i], d) by {
                assert(has_digit(n1[cell_index(r, c)], d));
            }
            assert forall|d: int| #[trigger] has_digit(n2[i], d) implies has_digit(n1[i], d) by {
                assert(has_digit(n2[cell_index(r, c)], d));
            }
            crate::bits::lemma_mask_ext(n1[i], n2[i]);
        }
    }
    assert(n1 =~= n2);
}

/// The basic fill leaves the grids group-consistent: no mask keeps a digit
/// already placed elsewhere in its row, column, or box.
pub proof fn lemma_filled_group_consistent(p: Seq<u8>, n: Seq<u16>)
    requires
        puzzle_wf(p),
        notes_filled(p, n),
    ensures
        group_consistent(p, n),
{
    assert forall|r: int, c: int, r2: int, c2: int|
        #![trigger n[cell_index(r, c)], p[cell_index(r2, c2)]]
        valid_cell(r, c) && valid_cell(r2, c2) && !(r == r2 && c == c2) && sees(r, c, r2, c2) && p[
            cell_index(r2, c2)
        ] != 0 implies !has_digit(n[cell_index(r, c)], p[cell_index(r2, c2)] as int) by {
        lemma_fill_excludes_placed(p, n, r, c, r2, c2);
    }
}

/// Committing is idempotent in its eliminating effect: once a commit has
/// removed its digit from every other cell of its row, column, and box, no
/// candidate-narrowing pass can bring that digit back there, because every
/// pass only shrinks masks.
pub proof fn lemma_commit_stays_eliminated(
    n1: Seq<u16>,
    n2: Seq<u16>,
    row: int,
    col: int,
    value: int,
)
    requires
        notes_le(n2, n1),
        valid_cell(row, col),
        forall|r2: int, c2: int|
            valid_cell(r2, c2) && !(r2 == row && c2 == col) && sees(row, col, r2, c2)
                ==> !has_digit(#[trigger] n1[cell_index(r2, c2)], value),
    ensures
        forall|r2: int, c2: int|
            valid_cell(r2, c2) && !(r2 == row && c2 == col) && sees(row, col, r2, c2)
                ==> !has_digit(#[trigger] n2[cell_index(r2, c2)], value),
{
    assert forall|r2: int, c2: int|
        valid_cell(r2, c2) && !(r2 == row && c2 == col) && sees(row, col, r2, c2)
            implies !has_digit(#[trigger] n2[cell_index(r2, c2)], value) by {
        assert(mask_le(n2[cell_index(r2, c2)], n1[cell_index(r2, c2)]));
        assert(!has_digit(n1[cell_index(r2, c2)], value));
    }
}

/// What one group intersection pass leaves behind: cells outside the group
/// and placed cells are untouched; an empty group cell keeps a digit exactly
/// when it had it and the digit is placed nowhere in the group.
spec fn set_notes_post(p: Seq<u8>, n0: Seq<u16>, n1: Seq<u16>, cs: Seq<Point>) -> bool {
    &&& n1.len() == n0.len()
    &&& forall|i: int| 0 <= i < 81 && !coord_member(cs, i) ==> n1[i] == #[trigger] n0[i]
    &&& forall|k: int|
        0 <= k < 9 && p[#[trigger] coord_index(cs, k)] != 0
            ==> n1[coord_index(cs, k)] == n0[coord_index(cs, k)]
    &&& forall|k: int, d: int|
        #![trigger has_digit(n1[coord_index(cs, k)], d)]
        0 <= k < 9 && 1 <= d <= 9 && p[coord_index(cs, k)] == 0 ==> (has_digit(
            n1[coord_index(cs, k)],
            d,
        ) <==> (has_digit(n0[coord_index(cs, k)], d) && !digit_in_coords(p, cs, d)))
}

/// What the naked-set elimination leaves in one mask: the set's digits are
/// cleared from a cell that overlaps the set but does not lie inside it.
pub open spec fn cleared_note(m: u16, pair: u16) -> u16 {
    if m & pair != m && m & pair != 0 {
        m & !pair
    } else {
        m
    }
}

/// One naked-set clearing over a whole group. The group's cells are pairwise
/// distinct, so the cell-by-cell pass leaves exactly this grid.
pub open spec fn clear_set_spec(n: Seq<u16>, cs: Seq<Point>, pair: u16) -> Seq<u16> {
    Seq::new(81, |i: int| if coord_member(cs, i) {
        cleared_note(n[i], pair)
    } else {
        n[i]
    })
}

/// The pair handler over the group's first `k` cells: whenever a cell's mask
/// equals the mask `note0` of the cell at (x, y) and it is another cell, the
/// pair is cleared from the group.
pub open spec fn corresponding_upto(
    n: Seq<u16>,
    cs: Seq<Point>,
    x: int,
    y: int,
    note0: u16,
    k: int,
) -> Seq<u16>
    decreases k,
{
    if k <= 0 {
        n
    } else {
        let prev = corresponding_upto(n, cs, x, y, note0, k - 1);
        if prev[coord_index(cs, k - 1)] == note0 && !(cs[k - 1].0 == x && cs[k - 1].1 == y) {
            clear_set_spec(prev, cs, note0)
        } else {
            prev
        }
    }
}

/// The whole pair handler for the cell at (x, y).
pub open spec fn corresponding_spec(n: Seq<u16>, cs: Seq<Point>, x: int, y: int) -> Seq<u16> {
    corresponding_upto(n, cs, x, y, n[cell_index(x, y)], 9)
}

/// The third-cell scan of the triple handler, over cells `lo..t`.
pub open spec fn triple_third_upto(
    n: Seq<u16>,
    cs: Seq<Point>,
    second_note: u16,
    lo: int,
    t: int,
) -> Seq<u16>
    decreases t - lo,
{
    if t <= lo {
        n
    } else {
        let prev = triple_third_upto(n, cs, second_note, lo, t - 1);
        let th = prev[coord_index(cs, t - 1)];
        if popcount(second_note | th) <= 3 && th != 0 {
            clear_set_spec(prev, cs, second_note | th)
        } else {
            prev
        }
    }
}

/// The second-cell scan of the triple handler, over cells `lo..s`.
pub open spec fn triple_second_upto(
    n: Seq<u16>,
    cs: Seq<Point>,
    first_note: u16,
    lo: int,
    s: int,
) -> Seq<u16>
    decreases s - lo,
{
    if s <= lo {
        n
    } else {
        let prev = triple_second_upto(n, cs, first_note, lo, s - 1);
        let sec = prev[coord_index(cs, s - 1)];
        if popcount(sec | first_note) <= 3 && sec != 0 {
            triple_third_upto(prev, cs, sec | first_note, s, 9)
        } else {
            prev
        }
    }
}

/// The whole triple handler for the small mask found at position `index`.
pub open spec fn handle_triple_spec(n: Seq<u16>, cs: Seq<Point>, index: int, first_note: u16) -> Seq<
    u16,
> {
    if index >= 7 {
        n
    } else {
        triple_second_upto(n, cs, first_note, index + 1, 8)
    }
}

/// The naked-pair scan over the group's first `k` cells.
pub open spec fn pairs_upto(n: Seq<u16>, cs: Seq<Point>, k: int) -> Seq<u16>
    decreases k,
{
    if k <= 0 {
        n
    } else {
        let prev = pairs_upto(n, cs, k - 1);
        let note = prev[coord_index(cs, k - 1)];
        if popcount(note) == 2 {
            corresponding_spec(prev, cs, cs[k - 1].0 as int, cs[k - 1].1 as int)
        } else {
            prev
        }
    }
}

/// The naked-triple scan over the group's first `k` cells.
pub open spec fn triples_upto(n: Seq<u16>, cs: Seq<Point>, k: int) -> Seq<u16>
    decreases k,
{
    if k <= 0 {
        n
    } else {
        let prev = triples_upto(n, cs, k - 1);
        let note = prev[coord_index(cs, k - 1)];
        if popcount(note) <= 3 && note != 0 {
            handle_triple_spec(prev, cs, k - 1, note)
        } else {
            prev
        }
    }
}

/// One group's naked-set pass: the pair scan, and the triple scan only when
/// the pair scan changed nothing.
pub open spec fn obvious_set_spec(n: Seq<u16>, cs: Seq<Point>) -> Seq<u16> {
    let after_pairs = pairs_upto(n, cs, 9);
    if after_pairs != n {
        after_pairs
    } else {
        triples_upto(n, cs, 9)
    }
}

/// The naked-set passes over the first `g` of the 27 groups, in sweep order.
pub open spec fn obvious_groups_upto(n: Seq<u16>, g: int) -> Seq<u16>
    decreases g,
{
    if g <= 0 {
        n
    } else {
        obvious_set_spec(obvious_groups_upto(n, g - 1), spec_group(g - 1))
    }
}

/// The whole naked-pair/triple sweep over all 27 groups.
pub open spec fn obvious_pairs_spec(n: Seq<u16>) -> Seq<u16> {
    obvious_groups_upto(n, 27)
}

/// The square-method step: the box-line sweep, and the hidden-pair sweep
/// only when the box-line sweep changed nothing.
pub open spec fn square_methods_spec(n: Seq<u16>) -> Seq<u16> {
    let after_pointing = crate::pointing_sets::pointing_spec(n);
    if after_pointing != n {
        after_pointing
    } else {
        crate::hidden_sets::hidden_sets_spec(n)
    }
}

/// What every cell starts from before the group sweep: all nine candidates
/// when empty, none when placed.
spec fn base_note(p: Seq<u8>, i: int) -> u16 {
    if p[i] != 0 {
        0u16
    } else {
        FILLED_BITSET
    }
}

/// The sweep position at which the box of cell (r, c) is traversed.
spec fn box_order(r: int, c: int) -> int {
    3 * (c / 3) + r / 3
}

/// The grid state after the sweep has intersected rows below `ri`, columns
/// below `ci`, and boxes traversed before position `bi`.
spec fn fill_partial(p: Seq<u8>, n: Seq<u16>, ri: int, ci: int, bi: int) -> bool {
    &&& n.len() == 81
    &&& forall|r: int, c: int|
        valid_cell(r, c) && p[cell_index(r, c)] != 0 ==> n[cell_index(r, c)] == 0
    &&& forall|r: int, c: int, d: int|
        #![trigger has_digit(n[cell_index(r, c)], d)]
        valid_cell(r, c) && 1 <= d <= 9 && p[cell_index(r, c)] == 0 ==> (has_digit(
            n[cell_index(r, c)],
            d,
        ) <==> (!(r < ri && digit_in_row(p, r, d)) && !(c < ci && digit_in_col(p, c, d)) && !(
        box_order(r, c) < bi && digit_in_box(p, r, c, d))))
}

proof fn lemma_fill_step_row(
    p: Seq<u8>,
    n0: Seq<u16>,
    n1: Seq<u16>,
    cs: Seq<Point>,
    row: int,
    ci: int,
    bi: int,
)
    requires
        p.len() == 81,
        n0.len() == 81,
        n1.len() == 81,
        is_row_coords(cs, row),
        0 <= row < 9,
        fill_partial(p, n0, row, ci, bi),
        set_notes_post(p, n0, n1, cs),
    ensures
        fill_partial(p, n1, row + 1, ci, bi),
{
    assert forall|r: int, c: int|
        valid_cell(r, c) && p[cell_index(r, c)] != 0 implies n1[cell_index(r, c)] == 0 by {
        let i = cell_index(r, c);
        lemma_row_member(cs, row, r, c);
        if r == row {
            let k = choose|k: int| 0 <= k < 9 && #[trigger] coord_index(cs, k) == i;
            assert(p[coord_index(cs, k)] != 0);
            assert(n1[i] == n0[i]);
        } else {
            assert(n1[i] == n0[i]);
        }
    }
    assert forall|r: int, c: int, d: int|
        valid_cell(r, c) && 1 <= d <= 9 && p[cell_index(r, c)] == 0 implies (#[trigger] has_digit(
        n1[cell_index(r, c)],
        d,
    ) <==> (!(r < row + 1 && digit_in_row(p, r, d)) && !(c < ci && digit_in_col(p, c, d)) && !(
    box_order(r, c) < bi && digit_in_box(p, r, c, d)))) by {
        let i = cell_index(r, c);
        assert(has_digit(n0[i], d) <==> (!(r < row && digit_in_row(p, r, d)) && !(c < ci
            && digit_in_col(p, c, d)) && !(box_order(r, c) < bi && digit_in_box(p, r, c, d))));
        lemma_row_member(cs, row, r, c);
        if r == row {
            let k = choose|k: int| 0 <= k < 9 && #[trigger] coord_index(cs, k) == i;
            lemma_row_digits(p, cs, row, d);
            assert(has_digit(n1[coord_index(cs, k)], d) <==> (has_digit(n0[coord_index(cs, k)], d)
                && !digit_in_coords(p, cs, d)));
        } else {
            assert(n1[i] == n0[i]);
        }
    }
}

proof fn lemma_fill_step_col(
    p: Seq<u8>,
    n0: Seq<u16>,
    n1: Seq<u16>,
    cs: Seq<Point>,
    col: int,
    ri: int,
    bi: int,
)
    requires
        p.len() == 81,
        n0.len() == 81,
        n1.len() == 81,
        is_col_coords(cs, col),
        0 <= col < 9,
        fill_partial(p, n0, ri, col, bi),
        set_notes_post(p, n0, n1, cs),
    ensures
        fill_partial(p, n1, ri, col + 1, bi),
{
    assert forall|r: int, c: int|
        valid_cell(r, c) && p[cell_index(r, c)] != 0 implies n1[cell_index(r, c)] == 0 by {
        let i = cell_index(r, c);
        lemma_col_member(cs, col, r, c);
        if c == col {
            let k = choose|k: int| 0 <= k < 9 && #[trigger] coord_index(cs, k) == i;
            assert(p[coord_index(cs, k)] != 0);
            assert(n1[i] == n0[i]);
        } else {
            assert(n1[i] == n0[i]);
        }
    }
    assert forall|r: int, c: int, d: int|
        valid_cell(r, c) && 1 <= d <= 9 && p[cell_index(r, c)] == 0 implies (#[trigger] has_digit(
        n1[cell_index(r, c)],
        d,
    ) <==> (!(r < ri && digit_in_row(p, r, d)) && !(c < col + 1 && digit_in_col(p, c, d)) && !(
    box_order(r, c) < bi && digit_in_box(p, r, c, d)))) by {
        let i = cell_index(r, c);
        assert(has_digit(n0[i], d) <==> (!(r < ri && digit_in_row(p, r, d)) && !(c < col
            && digit_in_col(p, c, d)) && !(box_order(r, c) < bi && digit_in_box(p, r, c, d))));
        lemma_col_member(cs, col, r, c);
        if c == col {
            let k = choose|k: int| 0 <= k < 9 && #[trigger] coord_index(cs, k) == i;
            lemma_col_digits(p, cs, col, d);
            assert(has_digit(n1[coord_index(cs, k)], d) <==> (has_digit(n0[coord_index(cs, k)], d)
                && !digit_in_coords(p, cs, d)));
        } else {
            assert(n1[i] == n0[i]);
        }
    }
}

proof fn lemma_fill_step_box(
    p: Seq<u8>,
    n0: Seq<u16>,
    n1: Seq<u16>,
    cs: Seq<Point>,
    bidx: int,
    ri: int,
    ci: int,
)
    requires
        p.len() == 81,
        n0.len() == 81,
        n1.len() == 81,
        is_box_coords(cs, bidx % 3, bidx / 3),
        0 <= bidx < 9,
        fill_partial(p, n0, ri, ci, bidx),
        set_notes_post(p, n0, n1, cs),
    ensures
        fill_partial(p, n1, ri, ci, bidx + 1),
{
    let sx = bidx % 3;
    let sy = bidx / 3;
    assert(bidx == 3 * sy + sx);
    assert forall|r: int, c: int|
        valid_cell(r, c) implies (coord_member(cs, cell_index(r, c)) <==> box_order(r, c)
        == bidx) by {
        lemma_box_member(cs, sx, sy, r, c);
        assert(0 <= r / 3 < 3 && 0 <= c / 3 < 3);
        if r / 3 == sx && c / 3 == sy {
            assert(box_order(r, c) == 3 * sy + sx);
        }
        if box_order(r, c) == bidx {
            assert(3 * (c / 3) + r / 3 == 3 * sy + sx);
            assert(c / 3 == sy && r / 3 == sx) by (nonlinear_arith)
                requires
                    3 * (c / 3) + r / 3 == 3 * sy + sx,
                    0 <= r / 3 < 3,
                    0 <= c / 3 < 3,
                    0 <= sx < 3,
                    0 <= sy < 3,
            ;
        }
    }
    assert forall|r: int, c: int|
        valid_cell(r, c) && p[cell_index(r, c)] != 0 implies n1[cell_index(r, c)] == 0 by {
        let i = cell_index(r, c);
        if box_order(r, c) == bidx {
            let k = choose|k: int| 0 <= k < 9 && #[trigger] coord_index(cs, k) == i;
            assert(p[coord_index(cs, k)] != 0);
            assert(n1[i] == n0[i]);
        } else {
            assert(!coord_member(cs, i));
            assert(n1[i] == n0[i]);
        }
    }
    assert forall|r: int, c: int, d: int|
        valid_cell(r, c) && 1 <= d <= 9 && p[cell_index(r, c)] == 0 implies (#[trigger] has_digit(
        n1[cell_index(r, c)],
        d,
    ) <==> (!(r < ri && digit_in_row(p, r, d)) && !(c < ci && digit_in_col(p, c, d)) && !(
    box_order(r, c) < bidx + 1 && digit_in_box(p, r, c, d)))) by {
        let i = cell_index(r, c);
        assert(has_digit(n0[i], d) <==> (!(r < ri && digit_in_row(p, r, d)) && !(c < ci
            && digit_in_col(p, c, d)) && !(box_order(r, c) < bidx && digit_in_box(p, r, c, d))));
        if box_order(r, c) == bidx {
            let k = choose|k: int| 0 <= k < 9 && #[trigger] coord_index(cs, k) == i;
            assert(r / 3 == sx && c / 3 == sy) by (nonlinear_arith)
                requires
                    3 * (c / 3) + r / 3 == 3 * sy + sx,
                    0 <= r / 3 < 3,
                    0 <= c / 3 < 3,
                    0 <= sx < 3,
                    0 <= sy < 3,
            ;
            lemma_box_digits(p, cs, r, c, d);
            assert(has_digit(n1[coord_index(cs, k)], d) <==> (has_digit(n0[coord_index(cs, k)], d)
                && !digit_in_coords(p, cs, d)));
        } else {
            assert(!coord_member(cs, i));
            assert(n1[i] == n0[i]);
        }
    }
}

pub struct NotesManager {
    puzzle: Puzzle,
    notes: Notes,
}

impl NotesManager {
    pub closed spec fn spec_puzzle(&self) -> Seq<u8> {
        self.puzzle@
    }

    pub closed spec fn spec_notes(&self) -> Seq<u16> {
        self.notes@
    }

    pub open spec fn wf(&self) -> bool {
        puzzle_wf(self.spec_puzzle()) && notes_wf(self.spec_notes())
    }

    pub fn new(play_board: Puzzle) -> (m: NotesManager)
        requires
            play_board.wf(),
        ensures
            m.wf(),
            m.spec_puzzle() == play_board@,
            forall|i: int| 0 <= i < 81 ==> m.spec_notes()[i] == 0,
    {
        let notes = Notes::new();
        NotesManager { puzzle: play_board, notes }
    }

    /// Wrap an existing board together with an already-built candidate grid.
    pub fn with_notes(play_board: Puzzle, notes: Notes) -> (m: NotesManager)
        requires
            play_board.wf(),
            notes.wf(),
        ensures
            m.wf(),
            m.spec_puzzle() == play_board@,
            m.spec_notes() == notes@,
    {
        NotesManager { puzzle: play_board, notes }
    }

    /// Initialize the candidate grid from scratch: all nine candidates in
    /// every empty cell, then one intersection sweep over all 27 groups, so
    /// that each mask reflects exactly the basic row/column/box exclusion.
    pub fn fill(&mut self)
        requires
            old(self).wf(),
        ensures
            final(self).wf(),
            final(self).spec_puzzle() == old(self).spec_puzzle(),
            notes_filled(final(self).spec_puzzle(), final(self).spec_notes()),
    {
        let ghost p = old(self).spec_puzzle();
        let mut row: usize = 0;
        while row < 9
            invariant
                row <= 9,
                self.wf(),
                p == self.spec_puzzle(),
                forall|i: int|
                    0 <= i < row * 9 ==> #[trigger] self.spec_notes()[i] == base_note(p, i),
            decreases 9 - row,
        {
            let mut col: usize = 0;
            while col < 9
                invariant
                    row < 9,
                    col <= 9,
                    self.wf(),
                    p == self.spec_puzzle(),
                    forall|i: int|
                        0 <= i < row * 9 + col ==> #[trigger] self.spec_notes()[i] == base_note(
                            p,
                            i,
                        ),
                decreases 9 - col,
            {
                if self.puzzle.get(row, col) != 0 {
                    self.notes.set(row, col, 0);
                } else {
                    self.notes.set(row, col, FILLED_BITSET);
                }
                col = col + 1;
            }
            row = row + 1;
        }
        proof {
            assert forall|r: int, c: int|
                valid_cell(r, c) && p[cell_index(r, c)] != 0 implies self.spec_notes()[cell_index(
                r,
                c,
            )] == 0 by {
                assert(self.spec_notes()[cell_index(r, c)] == base_note(p, cell_index(r, c)));
            }
            assert forall|r: int, c: int, d: int|
                valid_cell(r, c) && 1 <= d <= 9 && p[cell_index(r, c)] == 0 implies has_digit(
                self.spec_notes()[cell_index(r, c)],
                d,
            ) by {
                assert(self.spec_notes()[cell_index(r, c)] == base_note(p, cell_index(r, c)));
                lemma_full_bit((d - 1) as u16);
            }
            assert(fill_partial(p, self.spec_notes(), 0, 0, 0));
        }
        let mut index: usize = 0;
        while index < 9
            invariant
                index <= 9,
                self.wf(),
                p == self.spec_puzzle(),
                fill_partial(p, self.spec_notes(), index as int, index as int, index as int),
            decreases 9 - index,
        {
            let groups = all_coordinates(index);
            let ghost n0 = self.spec_notes();
            self.set_notes(&groups[0]);
            proof {
                lemma_fill_step_row(
                    p,
                    n0,
                    self.spec_notes(),
                    groups@[0]@,
                    index as int,
                    index as int,
                    index as int,
                );
            }
            let ghost n1 = self.spec_notes();
            self.set_notes(&groups[1]);
            proof {
                lemma_fill_step_col(
                    p,
                    n1,
                    self.spec_notes(),
                    groups@[1]@,
                    index as int,
                    index as int + 1,
                    index as int,
                );
            }
            let ghost n2 = self.spec_notes();
            self.set_notes(&groups[2]);
            proof {
                lemma_fill_step_box(
                    p,
                    n2,
                    self.spec_notes(),
                    groups@[2]@,
                    index as int,
                    index as int + 1,
                    index as int + 1,
                );
            }
            index = index + 1;
        }
        proof {
            let n = self.spec_notes();
            assert forall|r: int, c: int, d: int|
                valid_cell(r, c) && 1 <= d <= 9 implies (#[trigger] has_digit(
                n[cell_index(r, c)],
                d,
            ) <==> (p[cell_index(r, c)] == 0 && !digit_in_row(p, r, d) && !digit_in_col(p, c, d)
                && !digit_in_box(p, r, c, d))) by {
                if p[cell_index(r, c)] == 0 {
                    assert(0 <= r / 3 < 3 && 0 <= c / 3 < 3);
                    assert(box_order(r, c) < 9);
                } else {
                    assert(n[cell_index(r, c)] == 0);
                    if 1 <= d <= 9 {
                        lemma_zero_bit((d - 1) as u16);
                    }
                }
            }
            assert(notes_filled(p, n));
        }
    }

    /// A copy of the current candidate grid.
    pub fn get(&self) -> (n: Notes)
        ensures
            n@ == self.spec_notes(),
    {
        self.notes.clone()
    }

    /// Hidden-single lookup: the cell returned is the only one in the group
    /// that still has `value` as a candidate; with zero or several such
    /// cells, nothing is returned.
    pub fn get_hidden(&self, coordinates: &Coordinates, value: usize) -> (r: Option<Point>)
        requires
            self.wf(),
            coords_wf(coordinates@),
            1 <= value <= 9,
        ensures
            match r {
                Some(pt) => exists|k: int|
                    0 <= k < 9 && #[trigger] coordinates@[k] == pt && has_digit(
                        self.spec_notes()[coord_index(coordinates@, k)],
                        value as int,
                    ) && (forall|j: int|
                        0 <= j < 9 && j != k ==> !has_digit(
                            self.spec_notes()[#[trigger] coord_index(coordinates@, j)],
                            value as int,
                        )),
                None => (forall|k: int|
                    0 <= k < 9 ==> !has_digit(
                        self.spec_notes()[#[trigger] coord_index(coordinates@, k)],
                        value as int,
                    )) || (exists|k1: int, k2: int|
                    0 <= k1 < k2 < 9 && has_digit(
                        self.spec_notes()[#[trigger] coord_index(coordinates@, k1)],
                        value as int,
                    ) && has_digit(
                        self.spec_notes()[#[trigger] coord_index(coordinates@, k2)],
                        value as int,
                    )),
            },
    {
        let ghost cs = coordinates@;
        let ghost n = self.spec_notes();
        let mut found = false;
        let mut coordinate_found: Option<Point> = None;
        let mut k: usize = 0;
        while k < 9
            invariant
                k <= 9,
                self.wf(),
                coords_wf(cs),
                cs == coordinates@,
                n == self.spec_notes(),
                match coordinate_found {
                    Some(pt) => found && exists|j: int|
                        0 <= j < k && #[trigger] cs[j] == pt && has_digit(
                            n[coord_index(cs, j)],
                            value as int,
                        ) && (forall|j2: int|
                            0 <= j2 < k && j2 != j ==> !has_digit(
                                n[#[trigger] coord_index(cs, j2)],
                                value as int,
                            )),
                    None => !found && forall|j: int|
                        0 <= j < k ==> !has_digit(n[#[trigger] coord_index(cs, j)], value as int),
                },
            decreases 9 - k,
        {
            let (row, col) = coordinates[k];
            proof {
                assert(coord_index(cs, k as int) == cell_index(row as int, col as int));
            }
            if Self::is_set(self.notes.get(row, col), value) {
                if found {
                    proof {
                        let j = choose|j: int|
                            0 <= j < k && #[trigger] cs[j] == coordinate_found->Some_0 && has_digit(
                                n[coord_index(cs, j)],
                                value as int,
                            );
                    }
                    return None;
                }
                found = true;
                coordinate_found = Some((row, col));
            }
            k = k + 1;
        }
        coordinate_found
    }

    /// Search the group for naked pairs and triples and clear their digits
    /// from the rest of the group; the result says whether any mask changed.
    pub fn set_obvious_pairs(&mut self) -> (any_progress: bool)
        requires
            old(self).wf(),
        ensures
            final(self).wf(),
            final(self).spec_puzzle() == old(self).spec_puzzle(),
            notes_le(final(self).spec_notes(), old(self).spec_notes()),
            any_progress == (final(self).spec_notes() != old(self).spec_notes()),
            final(self).spec_notes() == obvious_pairs_spec(old(self).spec_notes()),
    {
        let ghost n0 = old(self).spec_notes();
        let mut any_progress = false;
        let mut index: usize = 0;
        while index < 9
            invariant
                index <= 9,
                self.wf(),
                self.spec_puzzle() == old(self).spec_puzzle(),
                n0 == old(self).spec_notes(),
                notes_wf(n0),
                notes_le(self.spec_notes(), n0),
                any_progress == (self.spec_notes() != n0),
                self.spec_notes() == obvious_groups_upto(n0, 3 * index as int),
            decreases 9 - index,
        {
            let groups = all_coordinates(index);
            let mut g: usize = 0;
            while g < 3
                invariant
                    g <= 3,
                    index < 9,
                    self.wf(),
                    self.spec_puzzle() == old(self).spec_puzzle(),
                    n0 == old(self).spec_notes(),
                    notes_wf(n0),
                    notes_le(self.spec_notes(), n0),
                    any_progress == (self.spec_notes() != n0),
                    groups@.len() == 3,
                    forall|j: int| 0 <= j < 3 ==> coords_wf(#[trigger] groups@[j]@),
                    forall|j: int| 0 <= j < 3 ==> #[trigger] groups@[j]@ == spec_group(
                        3 * index as int + j,
                    ),
                    self.spec_notes() == obvious_groups_upto(n0, 3 * index as int + g as int),
                decreases 3 - g,
            {
                let ghost n_pre = self.spec_notes();
                let f = self.perform_obvious_set(&groups[g]);
                proof {
                    lemma_progress_compose(n0, n_pre, self.spec_notes(), any_progress, f);
                    assert(self.spec_notes() == obvious_groups_upto(
                        n0,
                        3 * index as int + g as int + 1,
                    ));
                }
                any_progress = any_progress || f;
                g = g + 1;
            }
            index = index + 1;
        }
        any_progress
    }

    /// Run the naked-pair scan and then the naked-triple scan over one group.
    fn perform_obvious_set(&mut self, coordinates: &Coordinates) -> (result: bool)
        requires
            old(self).wf(),
            coords_wf(coordinates@),
        ensures
            final(self).wf(),
            final(self).spec_puzzle() == old(self).spec_puzzle(),
            notes_le(final(self).spec_notes(), old(self).spec_notes()),
            result == (final(self).spec_notes() != old(self).spec_notes()),
            final(self).spec_notes() == obvious_set_spec(old(self).spec_notes(), coordinates@),
    {
        let ghost n0 = old(self).spec_notes();
        let ghost cs = coordinates@;
        let mut result = false;
        let mut k: usize = 0;
        while k < 9
            invariant
                k <= 9,
                self.wf(),
                coords_wf(cs),
                cs == coordinates@,
                self.spec_puzzle() == old(self).spec_puzzle(),
                n0 == old(self).spec_notes(),
                notes_wf(n0),
                notes_le(self.spec_notes(), n0),
                result == (self.spec_notes() != n0),
                self.spec_notes() == pairs_upto(n0, cs, k as int),
            decreases 9 - k,
        {
            let (row, col) = coordinates[k];
            let ghost n_at = self.spec_notes();
            let note = self.notes.get(row, col);
            proof {
                assert(note == n_at[coord_index(cs, k as int)]);
            }
            if count_ones(note) == 2 {
                let ghost n_pre = self.spec_notes();
                let f = self.handle_coresponding_note(coordinates, (row, col));
                proof {
                    lemma_progress_compose(n0, n_pre, self.spec_notes(), result, f);
                }
                result = result || f;
            }
            proof {
                assert(self.spec_notes() == pairs_upto(n0, cs, k + 1));
            }
            k = k + 1;
        }
        if result {
            proof {
                assert(self.spec_notes() == obvious_set_spec(n0, cs));
            }
            return true;
        }
        let mut index: usize = 0;
        while index < 9
            invariant
                index <= 9,
                self.wf(),
                coords_wf(cs),
                cs == coordinates@,
                self.spec_puzzle() == old(self).spec_puzzle(),
                n0 == old(self).spec_notes(),
                notes_wf(n0),
                notes_le(self.spec_notes(), n0),
                result == (self.spec_notes() != n0),
                pairs_upto(n0, cs, 9) == n0,
                self.spec_notes() == triples_upto(n0, cs, index as int),
            decreases 9 - index,
        {
            let (row, col) = coordinates[index];
            let ghost n_at = self.spec_notes();
            let note = self.notes.get(row, col);
            proof {
                assert(note == n_at[coord_index(cs, index as int)]);
            }
            if count_ones(note) <= 3 && note != 0 {
                let ghost n_pre = self.spec_notes();
                let f = self.handle_triple(coordinates, index, note);
                proof {
                    lemma_progress_compose(n0, n_pre, self.spec_notes(), result, f);
                }
                result = result || f;
            }
            proof {
                assert(self.spec_notes() == triples_upto(n0, cs, index + 1));
            }
            index = index + 1;
        }
        result
    }

    /// Try to extend a small mask at `index` to a naked triple with two later
    /// cells, clearing the triple's digits from the rest of the group.
    fn handle_triple(&mut self, coordinates: &Coordinates, index: usize, first_note: u16) -> (result:
        bool)
        requires
            old(self).wf(),
            coords_wf(coordinates@),
            index < 9,
        ensures
            final(self).wf(),
            final(self).spec_puzzle() == old(self).spec_puzzle(),
            notes_le(final(self).spec_notes(), old(self).spec_notes()),
            result == (final(self).spec_notes() != old(self).spec_notes()),
            final(self).spec_notes() == handle_triple_spec(
                old(self).spec_notes(),
                coordinates@,
                index as int,
                first_note,
            ),
    {
        let ghost n0 = old(self).spec_notes();
        let ghost cs = coordinates@;
        if index >= 7 {
            return false;  // no room left for a second and third cell
        }
        let mut result = false;
        let mut second: usize = index + 1;
        while second < 8
            invariant
                index + 1 <= second <= 8,
                index < 7,
                self.wf(),
                coords_wf(cs),
                cs == coordinates@,
                self.spec_puzzle() == old(self).spec_puzzle(),
                n0 == old(self).spec_notes(),
                notes_wf(n0),
                notes_le(self.spec_notes(), n0),
                result == (self.spec_notes() != n0),
                self.spec_notes() == triple_second_upto(
                    n0,
                    cs,
                    first_note,
                    index as int + 1,
                    second as int,
                ),
            decreases 8 - second,
        {
            let (row, col) = coordinates[second];
            let ghost n_s = self.spec_notes();
            let sec = self.notes.get(row, col);
            proof {
                assert(sec == n_s[coord_index(cs, second as int)]);
            }
            let second_note = sec | first_note;
            if count_ones(second_note) <= 3 && sec != 0 {
                let mut third: usize = second + 1;
                while third < 9
                    invariant
                        second + 1 <= third <= 9,
                        second < 8,
                        self.wf(),
                        coords_wf(cs),
                        cs == coordinates@,
                        self.spec_puzzle() == old(self).spec_puzzle(),
                        n0 == old(self).spec_notes(),
                        notes_wf(n0),
                        notes_le(self.spec_notes(), n0),
                        result == (self.spec_notes() != n0),
                        self.spec_notes() == triple_third_upto(
                            n_s,
                            cs,
                            second_note,
                            second as int + 1,
                            third as int,
                        ),
                    decreases 9 - third,
                {
                    let (row3, col3) = coordinates[third];
                    let ghost n_t = self.spec_notes();
                    let th = self.notes.get(row3, col3);
                    proof {
                        assert(th == n_t[coord_index(cs, third as int)]);
                    }
                    let note = second_note | th;
                    if count_ones(note) <= 3 && th != 0 {
                        let ghost n_pre = self.spec_notes();
                        let f = self.clear_notes_obvious_set_based(coordinates, note);
                        proof {
                            lemma_progress_compose(n0, n_pre, self.spec_notes(), result, f);
                        }
                        result = result || f;
                    }
                    proof {
                        assert(self.spec_notes() == triple_third_upto(
                            n_s,
                            cs,
                            second_note,
                            second as int + 1,
                            third + 1,
                        ));
                    }
                    third = third + 1;
                }
            }
            proof {
                assert(self.spec_notes() == triple_second_upto(
                    n0,
                    cs,
                    first_note,
                    index as int + 1,
                    second + 1,
                ));
            }
            second = second + 1;
        }
        result
    }

    /// If another cell of the group carries the same two-digit mask as the
    /// cell at `point`, clear that pair from the rest of the group.
    fn handle_coresponding_note(&mut self, coordinates: &Coordinates, point: Point) -> (any_progress:
        bool)
        requires
            old(self).wf(),
            coords_wf(coordinates@),
            point.0 < 9,
            point.1 < 9,
        ensures
            final(self).wf(),
            final(self).spec_puzzle() == old(self).spec_puzzle(),
            notes_le(final(self).spec_notes(), old(self).spec_notes()),
            any_progress == (final(self).spec_notes() != old(self).spec_notes()),
            final(self).spec_notes() == corresponding_spec(
                old(self).spec_notes(),
                coordinates@,
                point.0 as int,
                point.1 as int,
            ),
    {
        let (x, y) = point;
        let mut any_progress = false;
        let note = self.notes.get(x, y);
        let ghost n0 = old(self).spec_notes();
        let ghost cs = coordinates@;
        let mut k: usize = 0;
        while k < 9
            invariant
                k <= 9,
                self.wf(),
                coords_wf(cs),
                cs == coordinates@,
                x == point.0,
                y == point.1,
                x < 9,
                y < 9,
                self.spec_puzzle() == old(self).spec_puzzle(),
                n0 == old(self).spec_notes(),
                notes_wf(n0),
                note == n0[cell_index(x as int, y as int)],
                notes_le(self.spec_notes(), n0),
                any_progress == (self.spec_notes() != n0),
                self.spec_notes() == corresponding_upto(
                    n0,
                    cs,
                    x as int,
                    y as int,
                    note,
                    k as int,
                ),
            decreases 9 - k,
        {
            let (row, col) = coordinates[k];
            let ghost n_at = self.spec_notes();
            if self.notes.get(row, col) == note && !(row == x && col == y) {
                let ghost n_pre = self.spec_notes();
                let f = self.clear_notes_obvious_set_based(coordinates, note);
                proof {
                    lemma_progress_compose(n0, n_pre, self.spec_notes(), any_progress, f);
                }
                any_progress = any_progress || f;
            }
            proof {
                assert(n_at[coord_index(cs, k as int)] == n_at[cell_index(
                    row as int,
                    col as int,
                )]);
                assert(self.spec_notes() == corresponding_upto(
                    n0,
                    cs,
                    x as int,
                    y as int,
                    note,
                    k + 1,
                ));
            }
            k = k + 1;
        }
        any_progress
    }

    /// Clear the set's digits from every cell of the group that overlaps the
    /// set without lying inside it.
    fn clear_notes_obvious_set_based(&mut self, coordinates: &Coordinates, pair_note: u16) -> (any_progress:
        bool)
        requires
            old(self).wf(),
            coords_wf(coordinates@),
        ensures
            final(self).wf(),
            final(self).spec_puzzle() == old(self).spec_puzzle(),
            forall|i: int|
                0 <= i < 81 && !coord_member(coordinates@, i) ==> final(self).spec_notes()[i]
                    == #[trigger] old(self).spec_notes()[i],
            forall|k: int|
                0 <= k < 9 ==> final(self).spec_notes()[#[trigger] coord_index(coordinates@, k)]
                    == cleared_note(
                    old(self).spec_notes()[coord_index(coordinates@, k)],
                    pair_note,
                ),
            notes_le(final(self).spec_notes(), old(self).spec_notes()),
            any_progress == (final(self).spec_notes() != old(self).spec_notes()),
            final(self).spec_notes() == clear_set_spec(old(self).spec_notes(), coordinates@, pair_note),
    {
        let ghost n0 = old(self).spec_notes();
        let ghost cs = coordinates@;
        let mut any_progress = false;
        let mut k: usize = 0;
        while k < 9
            invariant
                k <= 9,
                self.wf(),
                coords_wf(cs),
                cs == coordinates@,
                self.spec_puzzle() == old(self).spec_puzzle(),
                n0 == old(self).spec_notes(),
                notes_wf(n0),
                forall|i: int|
                    0 <= i < 81 && !coord_member_upto(cs, i, k as int) ==> self.spec_notes()[i]
                        == #[trigger] n0[i],
                forall|j: int|
                    0 <= j < k ==> self.spec_notes()[#[trigger] coord_index(cs, j)] == cleared_note(
                        n0[coord_index(cs, j)],
                        pair_note,
                    ),
                any_progress ==> self.spec_notes() != n0,
                !any_progress ==> self.spec_notes() == n0,
            decreases 9 - k,
        {
            proof {
                assert forall|j: int, k2: int|
                    0 <= j < 9 && 0 <= k2 < 9 && j != k2 implies #[trigger] coord_index(cs, j)
                    != #[trigger] coord_index(cs, k2) by {
                    lemma_coord_index_distinct(cs, j, k2);
                }
                assert(!coord_member_upto(cs, coord_index(cs, k as int), k as int));
            }
            let (row, col) = coordinates[k];
            let note = self.notes.get(row, col);
            proof {
                assert(coord_index(cs, k as int) == cell_index(row as int, col as int));
                assert(note == n0[coord_index(cs, k as int)]);
            }
            let masked_note = note & pair_note;
            if masked_note != note && masked_note != 0 {
                any_progress = true;
                proof {
                    lemma_mask_bounds(note, pair_note);
                    lemma_shared_flag(note, pair_note);
                }
                self.notes.set(row, col, note & !pair_note);
                proof {
                    assert(self.spec_notes()[coord_index(cs, k as int)] != n0[coord_index(
                        cs,
                        k as int,
                    )]);
                }
            }
            proof {
                assert forall|i: int|
                    0 <= i < 81 && !coord_member_upto(cs, i, k + 1) implies self.spec_notes()[i]
                    == #[trigger] n0[i] by {
                    assert(!coord_member_upto(cs, i, k as int));
                    assert(coord_index(cs, k as int) != i);
                }
            }
            k = k + 1;
        }
        proof {
            assert forall|i: int|
                0 <= i < 81 && !coord_member(cs, i) implies self.spec_notes()[i]
                == #[trigger] n0[i] by {
                lemma_coord_member_full(cs, i);
            }
            assert forall|i: int| 0 <= i < 81 implies #[trigger] mask_le(
                self.spec_notes()[i],
                n0[i],
            ) by {
                if coord_member(cs, i) {
                    let j = choose|j: int| 0 <= j < 9 && #[trigger] coord_index(cs, j) == i;
                    assert(self.spec_notes()[i] == cleared_note(n0[i], pair_note));
                    assert forall|d: int| #[trigger] has_digit(self.spec_notes()[i], d) implies
                        has_digit(n0[i], d) by {
                        if 1 <= d <= 9 && n0[i] & pair_note != n0[i] && n0[i] & pair_note != 0 {
                            crate::bits::lemma_andnot_bit(n0[i], pair_note, (d - 1) as u16);
                        }
                    }
                } else {
                    lemma_coord_member_full(cs, i);
                }
            }
            assert forall|i: int|
                0 <= i < 81 implies self.spec_notes()[i] == #[trigger] clear_set_spec(
                n0,
                cs,
                pair_note,
            )[i] by {
                if coord_member(cs, i) {
                    let j = choose|j: int| 0 <= j < 9 && #[trigger] coord_index(cs, j) == i;
                    assert(self.spec_notes()[i] == cleared_note(n0[i], pair_note));
                } else {
                    lemma_coord_member_full(cs, i);
                }
            }
            assert(self.spec_notes() =~= clear_set_spec(n0, cs, pair_note));
        }
        any_progress
    }

    /// Eliminate a committed digit from the whole row, column, and box of the
    /// committed cell, and drop that cell's own candidates entirely.
    pub fn adjust(&mut self, row: usize, col: usize, value: u8)
        requires
            old(self).wf(),
            row < 9,
            col < 9,
            1 <= value <= 9,
        ensures
            final(self).wf(),
            final(self).spec_puzzle() == old(self).spec_puzzle(),
            final(self).spec_notes()[cell_index(row as int, col as int)] == 0,
            forall|r2: int, c2: int, d: int|
                #![trigger has_digit(final(self).spec_notes()[cell_index(r2, c2)], d)]
                valid_cell(r2, c2) && !(r2 == row && c2 == col) && sees(
                    row as int,
                    col as int,
                    r2,
                    c2,
                ) ==> (has_digit(final(self).spec_notes()[cell_index(r2, c2)], d) <==> (has_digit(
                    old(self).spec_notes()[cell_index(r2, c2)],
                    d,
                ) && d != value as int)),
            forall|r2: int, c2: int|
                valid_cell(r2, c2) && !sees(row as int, col as int, r2, c2)
                    ==> final(self).spec_notes()[cell_index(r2, c2)] == old(self).spec_notes()[
                    cell_index(r2, c2)
                ],
            notes_le(final(self).spec_notes(), old(self).spec_notes()),
            final(self).spec_notes() == adjusted_notes(
                old(self).spec_notes(),
                row as int,
                col as int,
                value as int,
            ),
    {
        let ghost n0 = old(self).spec_notes();
        let ghost p = old(self).spec_puzzle();
        let mut c2: usize = 0;
        while c2 < 9
            invariant
                c2 <= 9,
                self.wf(),
                row < 9,
                col < 9,
                1 <= value <= 9,
                p == self.spec_puzzle(),
                n0 == old(self).spec_notes(),
                n0.len() == 81,
                forall|c: int, d: int|
                    #![trigger has_digit(self.spec_notes()[cell_index(row as int, c)], d)]
                    0 <= c < c2 ==> (has_digit(self.spec_notes()[cell_index(row as int, c)], d)
                        <==> (has_digit(n0[cell_index(row as int, c)], d) && d != value as int)),
                forall|r: int, c: int|
                    valid_cell(r, c) && !(r == row && 0 <= c < c2)
                        ==> self.spec_notes()[cell_index(r, c)] == #[trigger] n0[cell_index(r, c)],
            decreases 9 - c2,
        {
            let mut cur: u16 = self.notes.get(row, c2);
            Self::unset_note(&mut cur, value);
            self.notes.set(row, c2, cur);
            c2 = c2 + 1;
        }
        let mut r2: usize = 0;
        while r2 < 9
            invariant
                r2 <= 9,
                self.wf(),
                row < 9,
                col < 9,
                1 <= value <= 9,
                p == self.spec_puzzle(),
                n0 == old(self).spec_notes(),
                n0.len() == 81,
                forall|r: int, c: int, d: int|
                    #![trigger has_digit(self.spec_notes()[cell_index(r, c)], d)]
                    valid_cell(r, c) && (r == row || (c == col && 0 <= r < r2)) ==> (has_digit(
                        self.spec_notes()[cell_index(r, c)],
                        d,
                    ) <==> (has_digit(n0[cell_index(r, c)], d) && d != value as int)),
                forall|r: int, c: int|
                    valid_cell(r, c) && !(r == row) && !(c == col && 0 <= r < r2)
                        ==> self.spec_notes()[cell_index(r, c)] == #[trigger] n0[cell_index(r, c)],
            decreases 9 - r2,
        {
            let mut cur: u16 = self.notes.get(r2, col);
            Self::unset_note(&mut cur, value);
            self.notes.set(r2, col, cur);
            r2 = r2 + 1;
        }
        let square = get_square_coordinates((row / 3, col / 3));
        let ghost cs = square@;
        let mut k: usize = 0;
        while k < 9
            invariant
                k <= 9,
                self.wf(),
                row < 9,
                col < 9,
                1 <= value <= 9,
                p == self.spec_puzzle(),
                n0 == old(self).spec_notes(),
                n0.len() == 81,
                cs == square@,
                coords_wf(cs),
                is_box_coords(cs, row as int / 3, col as int / 3),
                forall|r: int, c: int, d: int|
                    #![trigger has_digit(self.spec_notes()[cell_index(r, c)], d)]
                    valid_cell(r, c) && (r == row || c == col || coord_member_upto(
                        cs,
                        cell_index(r, c),
                        k as int,
                    )) ==> (has_digit(self.spec_notes()[cell_index(r, c)], d) <==> (has_digit(
                        n0[cell_index(r, c)],
                        d,
                    ) && d != value as int)),
                forall|r: int, c: int|
                    valid_cell(r, c) && !(r == row) && !(c == col) && !coord_member_upto(
                        cs,
                        cell_index(r, c),
                        k as int,
                    ) ==> self.spec_notes()[cell_index(r, c)] == #[trigger] n0[cell_index(r, c)],
            decreases 9 - k,
        {
            let (x, y) = square[k];
            let mut cur: u16 = self.notes.get(x, y);
            Self::unset_note(&mut cur, value);
            self.notes.set(x, y, cur);
            proof {
                assert(coord_index(cs, k as int) == cell_index(x as int, y as int));
                assert forall|r: int, c: int|
                    valid_cell(r, c) && coord_member_upto(cs, cell_index(r, c), k + 1) && !(r == x
                        && c == y) implies coord_member_upto(cs, cell_index(r, c), k as int) by {
                    let j = choose|j: int|
                        0 <= j < k + 1 && #[trigger] coord_index(cs, j) == cell_index(r, c);
                    if j == k {
                        lemma_cell_index_injective(x as int, y as int, r, c);
                    }
                }
            }
            k = k + 1;
        }
        self.notes.set(row, col, 0);
        proof {
            assert forall|r2x: int, c2x: int|
                valid_cell(r2x, c2x) && sees(row as int, col as int, r2x, c2x) && !(r2x == row
                    && c2x == col) implies (r2x == row || c2x == col || coord_member_upto(
                cs,
                cell_index(r2x, c2x),
                9,
            )) by {
                if !(r2x == row) && !(c2x == col) {
                    lemma_box_member_same_box(cs, row as int, col as int, r2x, c2x);
                    lemma_coord_member_full(cs, cell_index(r2x, c2x));
                }
            }
            assert forall|r2x: int, c2x: int|
                valid_cell(r2x, c2x) && !sees(row as int, col as int, r2x, c2x) implies !(r2x
                == row || c2x == col || coord_member_upto(cs, cell_index(r2x, c2x), 9)) by {
                lemma_box_member_same_box(cs, row as int, col as int, r2x, c2x);
                lemma_coord_member_full(cs, cell_index(r2x, c2x));
            }
            assert forall|i: int| 0 <= i < 81 implies #[trigger] mask_le(
                self.spec_notes()[i],
                n0[i],
            ) by {
                let r = i / 9;
                let c = i % 9;
                assert(valid_cell(r, c) && cell_index(r, c) == i);
                assert forall|d: int| #[trigger] has_digit(self.spec_notes()[i], d) implies
                    has_digit(n0[i], d) by {
                    if self.spec_notes()[i] == 0 {
                        lemma_zero_bit((d - 1) as u16);
                    } else {
                        assert(has_digit(self.spec_notes()[cell_index(r, c)], d));
                    }
                }
            }
            assert forall|i: int|
                0 <= i < 81 implies self.spec_notes()[i] == #[trigger] adjusted_notes(
                n0,
                row as int,
                col as int,
                value as int,
            )[i] by {
                let r = i / 9;
                let c = i % 9;
                assert(valid_cell(r, c) && cell_index(r, c) == i);
                if r == row as int && c == col as int {
                    assert(self.spec_notes()[i] == 0);
                } else if sees(row as int, col as int, r, c) {
                    let cleared = n0[i] & !(1u16 << ((value - 1) as u16));
                    lemma_mask_bounds(n0[i], 1u16 << ((value - 1) as u16));
                    assert forall|d: int|
                        #[trigger] has_digit(cleared, d) <==> (has_digit(n0[i], d) && d
                            != value as int) by {
                        if 1 <= d <= 9 {
                            lemma_clear_bit(n0[i], (value - 1) as u16, (d - 1) as u16);
                        }
                    }
                    assert forall|d: int| #[trigger] has_digit(self.spec_notes()[i], d) implies
                        has_digit(cleared, d) by {
                        assert(has_digit(self.spec_notes()[cell_index(r, c)], d));
                    }
                    assert forall|d: int| #[trigger] has_digit(cleared, d) implies has_digit(
                        self.spec_notes()[i],
                        d,
                    ) by {
                        assert(has_digit(self.spec_notes()[cell_index(r, c)], d) <==> (has_digit(
                            n0[cell_index(r, c)],
                            d,
                        ) && d != value as int));
                    }
                    crate::bits::lemma_mask_ext(self.spec_notes()[i], cleared);
                } else {
                    assert(self.spec_notes()[cell_index(r, c)] == n0[cell_index(r, c)]);
                }
            }
            assert(self.spec_notes() =~= adjusted_notes(n0, row as int, col as int, value as int));
        }
    }

    /// Box-line reduction first; the hidden-pair narrowing runs only when
    /// that made no progress. The result says whether any mask changed.
    pub fn use_square_methods(&mut self) -> (r: bool)
        requires
            old(self).wf(),
        ensures
            final(self).wf(),
            final(self).spec_puzzle() == old(self).spec_puzzle(),
            notes_le(final(self).spec_notes(), old(self).spec_notes()),
            r == (final(self).spec_notes() != old(self).spec_notes()),
            final(self).spec_notes() == square_methods_spec(old(self).spec_notes()),
    {
        let ghost n0 = old(self).spec_notes();
        let mut handler = crate::pointing_sets::Handler::new();
        let p = handler.handle(&mut self.notes);
        if p {
            true
        } else {
            let ghost n_mid = self.spec_notes();
            let f = crate::hidden_sets::use_hidden_sets(&mut self.notes);
            proof {
                lemma_progress_compose(n0, n_mid, self.spec_notes(), p, f);
            }
            f
        }
    }

    fn is_valid_position(position: usize) -> (r: bool)
        ensures
            r == (1 <= position <= 9),
    {
        position > 0 && position <= 9
    }

    /// Remove digit `bit` from a mask; out-of-range digits are ignored.
    fn unset_note(note: &mut u16, bit: u8)
        ensures
            1 <= bit <= 9 ==> forall|d: int|
                #[trigger] has_digit(*final(note), d) <==> (has_digit(*old(note), d) && d
                    != bit as int),
            !(1 <= bit <= 9) ==> *final(note) == *old(note),
            *old(note) < 512 ==> *final(note) < 512,
    {
        if Self::is_valid_position(bit as usize) {
            let ghost o: u16 = *note;
            *note = *note & !(1u16 << ((bit - 1) as u16));
            proof {
                assert forall|d: int|
                    #[trigger] has_digit(*note, d) <==> (has_digit(o, d) && d != bit as int) by {
                    if 1 <= d <= 9 {
                        lemma_clear_bit(o, (bit - 1) as u16, (d - 1) as u16);
                    }
                }
                lemma_mask_bounds(o, 1u16 << ((bit - 1) as u16));
            }
        }
    }

    /// Digit `position` is a candidate in `note`; false for out-of-range digits.
    fn is_set(note: u16, position: usize) -> (r: bool)
        ensures
            r == (1 <= position <= 9 && has_digit(note, position as int)),
    {
        if Self::is_valid_position(position) {
            let mask: u16 = 1u16 << ((position - 1) as u16);
            proof {
                lemma_test_bit(note, (position - 1) as u16);
            }
            (note & mask) != 0
        } else {
            false
        }
    }

    /// The mask of digits not yet placed anywhere on the group's cells.
    fn get_notes(&self, coordinates: &Coordinates) -> (note: u16)
        requires
            self.wf(),
            coords_wf(coordinates@),
        ensures
            note < 512,
            forall|d: int|
                1 <= d <= 9 ==> (#[trigger] has_digit(note, d) <==> !digit_in_coords(
                    self.spec_puzzle(),
                    coordinates@,
                    d,
                )),
    {
        let ghost p = self.spec_puzzle();
        let ghost cs = coordinates@;
        let mut note: u16 = FILLED_BITSET;
        proof {
            assert forall|d: int| 1 <= d <= 9 implies #[trigger] has_digit(note, d) by {
                lemma_full_bit((d - 1) as u16);
            }
        }
        let mut k: usize = 0;
        while k < 9
            invariant
                k <= 9,
                self.wf(),
                coords_wf(cs),
                cs == coordinates@,
                p == self.spec_puzzle(),
                note < 512,
                forall|d: int|
                    1 <= d <= 9 ==> (#[trigger] has_digit(note, d) <==> !digit_in_coords_upto(
                        p,
                        cs,
                        d,
                        k as int,
                    )),
            decreases 9 - k,
        {
            let (row, col) = coordinates[k];
            let cell = self.puzzle.get(row, col);
            let ghost note0 = note;
            if cell != 0 {
                Self::unset_note(&mut note, cell);
            }
            proof {
                assert(p[coord_index(cs, k as int)] == cell);
                assert forall|d: int|
                    1 <= d <= 9 implies (#[trigger] has_digit(note, d) <==> !digit_in_coords_upto(
                    p,
                    cs,
                    d,
                    k + 1,
                )) by {
                    if digit_in_coords_upto(p, cs, d, k + 1) {
                        let j = choose|j: int|
                            0 <= j < k + 1 && p[cell_index(
                                #[trigger] cs[j].0 as int,
                                cs[j].1 as int,
                            )] as int == d;
                        if j < k {
                            assert(digit_in_coords_upto(p, cs, d, k as int));
                        } else {
                            assert(d == cell as int);
                        }
                    }
                    if digit_in_coords_upto(p, cs, d, k as int) {
                        let j = choose|j: int|
                            0 <= j < k && p[cell_index(
                                #[trigger] cs[j].0 as int,
                                cs[j].1 as int,
                            )] as int == d;
                        assert(digit_in_coords_upto(p, cs, d, k + 1));
                    }
                    if d == cell as int && 1 <= cell <= 9 {
                        assert(p[cell_index(cs[k as int].0 as int, cs[k as int].1 as int)] as int
                            == d);
                        assert(digit_in_coords_upto(p, cs, d, k + 1));
                    }
                }
            }
            k = k + 1;
        }
        proof {
            assert forall|d: int|
                1 <= d <= 9 implies (#[trigger] has_digit(note, d) <==> !digit_in_coords(
                p,
                cs,
                d,
            )) by {
                lemma_digit_in_coords_full(p, cs, d);
            }
        }
        note
    }

    /// Intersect every empty cell of the group with the group's open digits.
    fn set_notes(&mut self, coordinates: &Coordinates)
        requires
            old(self).wf(),
            coords_wf(coordinates@),
        ensures
            final(self).wf(),
            final(self).spec_puzzle() == old(self).spec_puzzle(),
            set_notes_post(
                old(self).spec_puzzle(),
                old(self).spec_notes(),
                final(self).spec_notes(),
                coordinates@,
            ),
    {
        let ghost p = old(self).spec_puzzle();
        let ghost n0 = old(self).spec_notes();
        let ghost cs = coordinates@;
        let note = self.get_notes(coordinates);
        let mut k: usize = 0;
        while k < 9
            invariant
                k <= 9,
                self.wf(),
                coords_wf(cs),
                cs == coordinates@,
                p == self.spec_puzzle(),
                n0 == old(self).spec_notes(),
                n0.len() == 81,
                self.spec_notes().len() == 81,
                note < 512,
                forall|d: int|
                    1 <= d <= 9 ==> (#[trigger] has_digit(note, d) <==> !digit_in_coords(
                        p,
                        cs,
                        d,
                    )),
                forall|i: int|
                    0 <= i < 81 && !coord_member_upto(cs, i, k as int) ==> self.spec_notes()[i]
                        == #[trigger] n0[i],
                forall|j: int|
                    0 <= j < k && p[#[trigger] coord_index(cs, j)] != 0 ==> self.spec_notes()[
                        coord_index(cs, j)
                    ] == n0[coord_index(cs, j)],
                forall|j: int, d: int|
                    #![trigger has_digit(self.spec_notes()[coord_index(cs, j)], d)]
                    0 <= j < k && 1 <= d <= 9 && p[coord_index(cs, j)] == 0 ==> (has_digit(
                        self.spec_notes()[coord_index(cs, j)],
                        d,
                    ) <==> (has_digit(n0[coord_index(cs, j)], d) && !digit_in_coords(p, cs, d))),
            decreases 9 - k,
        {
            let (row, col) = coordinates[k];
            let ghost n_before = self.spec_notes();
            if self.puzzle.get(row, col) == 0 {
                let cur = self.notes.get(row, col);
                proof {
                    lemma_mask_bounds(cur, note);
                }
                self.notes.set(row, col, cur & note);
                proof {
                    assert forall|d: int|
                        1 <= d <= 9 implies (#[trigger] has_digit(cur & note, d) <==> (has_digit(
                        cur,
                        d,
                    ) && has_digit(note, d))) by {
                        lemma_and_bit(cur, note, (d - 1) as u16);
                    }
                }
            }
            proof {
                assert forall|j: int, k2: int|
                    0 <= j < 9 && 0 <= k2 < 9 && j != k2 implies #[trigger] coord_index(cs, j)
                    != #[trigger] coord_index(cs, k2) by {
                    lemma_coord_index_distinct(cs, j, k2);
                }
                assert forall|i: int|
                    0 <= i < 81 && !coord_member_upto(cs, i, k + 1) implies self.spec_notes()[i]
                    == #[trigger] n0[i] by {
                    assert(!coord_member_upto(cs, i, k as int));
                    assert(coord_index(cs, k as int) != i);
                }
            }
            k = k + 1;
        }
        proof {
            assert forall|i: int| 0 <= i < 81 && !coord_member(cs, i) implies self.spec_notes()[i]
                == #[trigger] n0[i] by {
                lemma_coord_member_full(cs, i);
            }
        }
    }
}

} // verus!
