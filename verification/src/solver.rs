//! The solving loop: naked singles, hidden singles, naked pairs/triples,
//! pointing sets, and hidden pairs, in fixed priority order, repeated until
//! no technique progresses or the iteration cap is reached.

use vstd::prelude::*;
use crate::bits::{
    count_ones, has_digit, lemma_bit_nonzero, lemma_high_bits, lemma_mask_le_nonzero,
    lemma_popcount_zero, mask_le, popcount,
};
use crate::coordinates::{Coordinates, Point, all_coordinates, coord_index, coords_wf, spec_group};
use crate::grid::{
    Puzzle, adjusted_notes, cell_index, clues_preserved, commits_from, digit_in_box, digit_in_col,
    digit_in_row, group_consistent, lemma_clues_preserved_trans, lemma_commits_from_compose,
    lemma_fill_compose, lemma_group_consistent_commit, lemma_group_consistent_narrow,
    lemma_notes_le_trans, notes_le, notes_wf, puzzle_wf, valid_cell,
};
use crate::notes_manager::{
    NotesManager, lemma_filled_group_consistent, lemma_notes_filled_unique, notes_filled,
};

verus! {

/// Narrowing the candidate grid never breaks the bond between grids: a cell
/// that still has candidates is still unfilled.
proof fn lemma_cross_inv(p: Seq<u8>, n1: Seq<u16>, n2: Seq<u16>)
    requires
        notes_wf(n2),
        notes_le(n2, n1),
        forall|i: int| 0 <= i < 81 && #[trigger] n1[i] != 0 ==> p[i] == 0,
    ensures
        forall|i: int| 0 <= i < 81 && #[trigger] n2[i] != 0 ==> p[i] == 0,
{
    assert forall|i: int| 0 <= i < 81 && #[trigger] n2[i] != 0 implies p[i] == 0 by {
        assert(mask_le(n2[i], n1[i]));
        lemma_mask_le_nonzero(n2[i], n1[i]);
    }
}

/// A grid with no empty cells is a fixed point of the solver: since commits
/// never overwrite a placed digit, every cell keeps its value.
pub proof fn lemma_full_grid_unchanged(pre: Seq<u8>, post: Seq<u8>)
    requires
        clues_preserved(pre, post),
        forall|i: int| 0 <= i < 81 ==> #[trigger] pre[i] != 0,
    ensures
        post == pre,
{
    assert forall|i: int| 0 <= i < 81 implies post[i] == #[trigger] pre[i] by {
        assert(pre[i] != 0);
    }
    assert(post =~= pre);
}

/// What the solver writes respects the basic exclusion of the input board:
/// a digit placed at (r, c) appeared nowhere in the row, the column, or the
/// box of (r, c) on the input board.
pub proof fn lemma_solver_respects_exclusion(
    board: Seq<u8>,
    n: Seq<u16>,
    post: Seq<u8>,
    r: int,
    c: int,
)
    requires
        puzzle_wf(board),
        notes_filled(board, n),
        commits_from(board, post, n),
        valid_cell(r, c),
        post[cell_index(r, c)] != board[cell_index(r, c)],
    ensures
        board[cell_index(r, c)] == 0,
        !digit_in_row(board, r, post[cell_index(r, c)] as int),
        !digit_in_col(board, c, post[cell_index(r, c)] as int),
        !digit_in_box(board, r, c, post[cell_index(r, c)] as int),
{
    let i = cell_index(r, c);
    let d = post[i] as int;
    assert(has_digit(n[cell_index(r, c)], d));
}

/// The naked-single pass over the first `k` cells: every cell whose mask in
/// the snapshot `snap` holds exactly one candidate receives that digit, and
/// the commit's elimination is propagated through the live grid.
pub open spec fn obvious_ones_upto(p: Seq<u8>, n: Seq<u16>, snap: Seq<u16>, k: int) -> (
    Seq<u8>,
    Seq<u16>,
)
    decreases k,
{
    if k <= 0 {
        (p, n)
    } else {
        let prev = obvious_ones_upto(p, n, snap, k - 1);
        let i = k - 1;
        if popcount(snap[i]) == 1 {
            let d = vstd::std_specs::bits::u16_trailing_zeros(snap[i]) + 1;
            (prev.0.update(i, d as u8), adjusted_notes(prev.1, i / 9, i % 9, d))
        } else {
            prev
        }
    }
}

/// The whole naked-single pass: the snapshot is the grid at entry.
pub open spec fn obvious_ones_spec(p: Seq<u8>, n: Seq<u16>) -> (Seq<u8>, Seq<u16>) {
    obvious_ones_upto(p, n, n, 81)
}

/// The group has exactly one cell where digit `d` is still possible.
pub open spec fn unique_position(n: Seq<u16>, cs: Seq<Point>, d: int) -> bool {
    exists|k: int|
        0 <= k < 9 && has_digit(n[#[trigger] coord_index(cs, k)], d) && (forall|j: int|
            0 <= j < 9 && j != k ==> !has_digit(n[#[trigger] coord_index(cs, j)], d))
}

/// That one cell's position within the group.
pub open spec fn the_position(n: Seq<u16>, cs: Seq<Point>, d: int) -> int {
    choose|k: int|
        0 <= k < 9 && has_digit(n[#[trigger] coord_index(cs, k)], d) && (forall|j: int|
            0 <= j < 9 && j != k ==> !has_digit(n[#[trigger] coord_index(cs, j)], d))
}

/// One hidden-single attempt: when the group has exactly one possible cell
/// for digit `d`, that cell receives `d` and the elimination is propagated;
/// otherwise nothing happens.
pub open spec fn set_hidden_spec(p: Seq<u8>, n: Seq<u16>, cs: Seq<Point>, d: int) -> (
    Seq<u8>,
    Seq<u16>,
) {
    if unique_position(n, cs, d) {
        let k = the_position(n, cs, d);
        let r = cs[k].0 as int;
        let c = cs[k].1 as int;
        (p.update(cell_index(r, c), d as u8), adjusted_notes(n, r, c, d))
    } else {
        (p, n)
    }
}

/// The hidden-single attempts of one digit over the first `g` of the 27
/// groups, in sweep order.
pub open spec fn hidden_ones_groups_upto(p: Seq<u8>, n: Seq<u16>, d: int, g: int) -> (
    Seq<u8>,
    Seq<u16>,
)
    decreases g,
{
    if g <= 0 {
        (p, n)
    } else {
        let prev = hidden_ones_groups_upto(p, n, d, g - 1);
        set_hidden_spec(prev.0, prev.1, spec_group(g - 1), d)
    }
}

/// The hidden-single pass for the digits below `v`.
pub open spec fn hidden_ones_upto(p: Seq<u8>, n: Seq<u16>, v: int) -> (Seq<u8>, Seq<u16>)
    decreases v,
{
    if v <= 1 {
        (p, n)
    } else {
        let prev = hidden_ones_upto(p, n, v - 1);
        hidden_ones_groups_upto(prev.0, prev.1, v - 1, 27)
    }
}

/// The whole hidden-single pass: digits 1..=9, each over all 27 groups.
pub open spec fn hidden_ones_spec(p: Seq<u8>, n: Seq<u16>) -> (Seq<u8>, Seq<u16>) {
    hidden_ones_upto(p, n, 10)
}

/// Solving is deterministic: two solvers built from equal boards carry equal
/// candidate grids after the fill, so their solving loops produce the same
/// solution grid.
pub proof fn lemma_solve_deterministic(board: Seq<u8>, na: Seq<u16>, nb: Seq<u16>)
    requires
        notes_wf(na),
        notes_wf(nb),
        notes_filled(board, na),
        notes_filled(board, nb),
    ensures
        solve_spec(board, na) == solve_spec(board, nb),
{
    lemma_notes_filled_unique(board, na, nb);
}

/// One iteration of the solving loop: the five techniques in priority order,
/// each later pass running only when the earlier ones made no progress; the
/// flag says whether the iteration changed anything.
pub open spec fn solve_step(p: Seq<u8>, n: Seq<u16>) -> (Seq<u8>, Seq<u16>, bool) {
    let r1 = obvious_ones_spec(p, n);
    if r1.0 != p {
        (r1.0, r1.1, true)
    } else {
        let r2 = hidden_ones_spec(r1.0, r1.1);
        if r2.0 != r1.0 {
            (r2.0, r2.1, true)
        } else {
            let n3 = crate::notes_manager::obvious_pairs_spec(r2.1);
            if n3 != r2.1 {
                (r2.0, n3, true)
            } else {
                let n4 = crate::notes_manager::square_methods_spec(n3);
                (r2.0, n4, n4 != n3)
            }
        }
    }
}

/// The solving loop with at most `fuel` progressing iterations left.
pub open spec fn solve_upto(p: Seq<u8>, n: Seq<u16>, fuel: int) -> (Seq<u8>, Seq<u16>)
    decreases fuel,
{
    if fuel <= 0 {
        (p, n)
    } else {
        let s = solve_step(p, n);
        if s.2 {
            solve_upto(s.0, s.1, fuel - 1)
        } else {
            (s.0, s.1)
        }
    }
}

/// The whole solving loop, capped at 100 progressing iterations.
pub open spec fn solve_spec(p: Seq<u8>, n: Seq<u16>) -> (Seq<u8>, Seq<u16>) {
    solve_upto(p, n, 100)
}

/// How many progressing iterations the loop performs, up to `fuel`.
pub open spec fn solve_steps(p: Seq<u8>, n: Seq<u16>, fuel: int) -> int
    decreases fuel,
{
    if fuel <= 0 {
        0
    } else {
        let s = solve_step(p, n);
        if s.2 {
            1 + solve_steps(s.0, s.1, fuel - 1)
        } else {
            0
        }
    }
}

/// Which cells the naked-single pass commits: exactly those whose snapshot
/// mask holds one candidate; all other cells keep their digit.
proof fn lemma_obvious_ones_commits(p: Seq<u8>, n: Seq<u16>, snap: Seq<u16>, k: int, i: int)
    requires
        notes_wf(snap),
        p.len() == 81,
        0 <= i < 81,
        0 <= k <= 81,
    ensures
        i < k && popcount(snap[i]) == 1 ==> obvious_ones_upto(p, n, snap, k).0[i] != 0,
        !(i < k && popcount(snap[i]) == 1) ==> obvious_ones_upto(p, n, snap, k).0[i] == p[i],
        obvious_ones_upto(p, n, snap, k).0.len() == 81,
    decreases k,
{
    if k > 0 {
        lemma_obvious_ones_commits(p, n, snap, k - 1, i);
        let j = k - 1;
        if popcount(snap[j]) == 1 {
            if snap[j] == 0 {
                lemma_popcount_zero(16);
            }
            vstd::std_specs::bits::axiom_u16_trailing_zeros(snap[j]);
        }
    }
}

/// At a state where the solving step makes no progress, no cell's mask holds
/// exactly one candidate: a naked single would have been committed.
pub proof fn lemma_stalled_no_naked_single(p: Seq<u8>, n: Seq<u16>, i: int)
    requires
        puzzle_wf(p),
        notes_wf(n),
        forall|j: int| 0 <= j < 81 && #[trigger] n[j] != 0 ==> p[j] == 0,
        !solve_step(p, n).2,
        0 <= i < 81,
    ensures
        popcount(n[i]) != 1,
{
    if popcount(n[i]) == 1 {
        if n[i] == 0 {
            lemma_popcount_zero(16);
        }
        lemma_obvious_ones_commits(p, n, n, 81, i);
        assert(obvious_ones_spec(p, n).0[i] != 0);
        assert(p[i] == 0);
        assert(obvious_ones_spec(p, n).0 != p);
        assert(solve_step(p, n).2);
    }
}

/// A snapshot without naked singles leaves the pass with nothing to do.
proof fn lemma_obvious_identity(p: Seq<u8>, n: Seq<u16>, snap: Seq<u16>, k: int)
    requires
        0 <= k <= 81,
        forall|i: int| 0 <= i < k ==> popcount(#[trigger] snap[i]) != 1,
    ensures
        obvious_ones_upto(p, n, snap, k) == (p, n),
    decreases k,
{
    if k > 0 {
        lemma_obvious_identity(p, n, snap, k - 1);
    }
}

/// The hidden-single scan of one digit over the first `g` groups: it keeps
/// the grids linked and the clues intact, and if it returns the puzzle
/// unchanged, then no scanned group had a lone position for the digit.
proof fn lemma_hidden_groups_quiescent(pp: Seq<u8>, nn: Seq<u16>, d: int, g: int)
    requires
        pp.len() == 81,
        puzzle_wf(pp),
        notes_wf(nn),
        forall|i: int| 0 <= i < 81 && #[trigger] nn[i] != 0 ==> pp[i] == 0,
        1 <= d <= 9,
        0 <= g <= 27,
    ensures
        hidden_ones_groups_upto(pp, nn, d, g).0.len() == 81,
        puzzle_wf(hidden_ones_groups_upto(pp, nn, d, g).0),
        notes_wf(hidden_ones_groups_upto(pp, nn, d, g).1),
        forall|i: int|
            0 <= i < 81 && #[trigger] hidden_ones_groups_upto(pp, nn, d, g).1[i] != 0
                ==> hidden_ones_groups_upto(pp, nn, d, g).0[i] == 0,
        clues_preserved(pp, hidden_ones_groups_upto(pp, nn, d, g).0),
        hidden_ones_groups_upto(pp, nn, d, g).0 == pp ==> hidden_ones_groups_upto(pp, nn, d, g).1
            == nn,
        hidden_ones_groups_upto(pp, nn, d, g).0 == pp ==> forall|g0: int|
            0 <= g0 < g ==> !unique_position(nn, #[trigger] spec_group(g0), d),
    decreases g,
{
    if g > 0 {
        lemma_hidden_groups_quiescent(pp, nn, d, g - 1);
        let prev = hidden_ones_groups_upto(pp, nn, d, g - 1);
        let grp = spec_group(g - 1);
        crate::coordinates::lemma_spec_group_wf(g - 1);
        let r = hidden_ones_groups_upto(pp, nn, d, g);
        if unique_position(prev.1, grp, d) {
            let k = the_position(prev.1, grp, d);
            let row = grp[k].0 as int;
            let col = grp[k].1 as int;
            let idx = cell_index(row, col);
            assert(valid_cell(row, col));
            assert(coord_index(grp, k) == idx);
            lemma_bit_nonzero(prev.1[idx], (d - 1) as u16);
            assert(prev.0[idx] == 0);
            crate::grid::lemma_adjusted_le(prev.1, row, col, d);
            assert(r.0 == prev.0.update(idx, d as u8));
            assert(r.1 == adjusted_notes(prev.1, row, col, d));
            assert(clues_preserved(prev.0, r.0));
            lemma_clues_preserved_trans(pp, prev.0, r.0);
            assert forall|i: int| 0 <= i < 81 && #[trigger] r.1[i] != 0 implies r.0[i] == 0 by {
                let rr = i / 9;
                let cc = i % 9;
                assert(rr == row && cc == col ==> i == idx) by (nonlinear_arith)
                    requires
                        i == rr * 9 + cc,
                        idx == row * 9 + col,
                        0 <= rr < 9,
                        0 <= cc < 9,
                        0 <= row < 9,
                        0 <= col < 9,
                ;
                if i != idx {
                    assert(mask_le(r.1[i], prev.1[i]));
                    lemma_mask_le_nonzero(r.1[i], prev.1[i]);
                }
            }
            // the commit leaves the puzzle changed relative to `pp`
            if prev.0 == pp {
                assert(r.0[idx] == d as u8 && pp[idx] == 0);
                assert(r.0 != pp);
            } else {
                assert(!(prev.0 =~= pp));
                let i = choose|i: int| 0 <= i < 81 && prev.0[i] != pp[i];
                assert(pp[i] == 0);
                assert(prev.0[i] != 0);
                assert(r.0[i] == prev.0[i]);
                assert(r.0 != pp);
            }
        } else {
            assert(r == prev);
            if r.0 == pp {
                assert(prev.1 == nn);
                assert forall|g0: int| 0 <= g0 < g implies !unique_position(
                    nn,
                    #[trigger] spec_group(g0),
                    d,
                ) by {
                    if g0 == g - 1 {
                        assert(!unique_position(prev.1, grp, d));
                    }
                }
            }
        }
    }
}

/// The whole hidden-single pass: if it returns the puzzle unchanged, then no
/// group has a lone position for any digit below `v`.
proof fn lemma_hidden_values_quiescent(p: Seq<u8>, n: Seq<u16>, v: int)
    requires
        p.len() == 81,
        puzzle_wf(p),
        notes_wf(n),
        forall|i: int| 0 <= i < 81 && #[trigger] n[i] != 0 ==> p[i] == 0,
        1 <= v <= 10,
    ensures
        hidden_ones_upto(p, n, v).0.len() == 81,
        puzzle_wf(hidden_ones_upto(p, n, v).0),
        notes_wf(hidden_ones_upto(p, n, v).1),
        forall|i: int|
            0 <= i < 81 && #[trigger] hidden_ones_upto(p, n, v).1[i] != 0 ==> hidden_ones_upto(
                p,
                n,
                v,
            ).0[i] == 0,
        clues_preserved(p, hidden_ones_upto(p, n, v).0),
        hidden_ones_upto(p, n, v).0 == p ==> hidden_ones_upto(p, n, v).1 == n,
        hidden_ones_upto(p, n, v).0 == p ==> forall|v0: int, g0: int|
            1 <= v0 < v && 0 <= g0 < 27 ==> !(#[trigger] unique_position(n, spec_group(g0), v0)),
    decreases v,
{
    if v > 1 {
        lemma_hidden_values_quiescent(p, n, v - 1);
        let prev = hidden_ones_upto(p, n, v - 1);
        lemma_hidden_groups_quiescent(prev.0, prev.1, v - 1, 27);
        let r = hidden_ones_upto(p, n, v);
        lemma_clues_preserved_trans(p, prev.0, r.0);
        if r.0 == p {
            if prev.0 != p {
                assert(!(prev.0 =~= p));
                let i = choose|i: int| 0 <= i < 81 && prev.0[i] != p[i];
                assert(p[i] == 0);
                assert(prev.0[i] != 0);
                assert(r.0[i] == prev.0[i]);
                assert(false);
            }
            assert(prev.1 == n);
        }
    }
}

/// At a state where the solving step makes no progress, no group has a lone
/// possible position for any digit: a hidden single would have been
/// committed.
pub proof fn lemma_stalled_no_hidden_single(p: Seq<u8>, n: Seq<u16>, g: int, d: int)
    requires
        puzzle_wf(p),
        notes_wf(n),
        forall|j: int| 0 <= j < 81 && #[trigger] n[j] != 0 ==> p[j] == 0,
        !solve_step(p, n).2,
        0 <= g < 27,
        1 <= d <= 9,
    ensures
        !unique_position(n, spec_group(g), d),
{
    assert forall|i: int| 0 <= i < 81 implies popcount(#[trigger] n[i]) != 1 by {
        lemma_stalled_no_naked_single(p, n, i);
    }
    lemma_obvious_identity(p, n, n, 81);
    assert(obvious_ones_spec(p, n) == (p, n));
    let r2 = hidden_ones_spec(p, n);
    assert(r2.0 == p);
    lemma_hidden_values_quiescent(p, n, 10);
}

pub struct Solver {
    puzzle: Puzzle,
    notes_manager: NotesManager,
}

impl Solver {
    pub closed spec fn spec_puzzle(&self) -> Seq<u8> {
        self.puzzle@
    }

    pub closed spec fn spec_manager(&self) -> NotesManager {
        self.notes_manager
    }

    pub open spec fn spec_notes(&self) -> Seq<u16> {
        self.spec_manager().spec_notes()
    }

    pub open spec fn wf(&self) -> bool {
        &&& puzzle_wf(self.spec_puzzle())
        &&& self.spec_manager().wf()
        &&& forall|i: int|
            0 <= i < 81 && #[trigger] self.spec_notes()[i] != 0 ==> self.spec_puzzle()[i] == 0
    }

    /// Copy the board, derive its candidate grid, and stand ready to solve.
    pub fn new(play_board: Puzzle) -> (s: Solver)
        requires
            play_board.wf(),
        ensures
            s.wf(),
            s.spec_puzzle() == play_board@,
            notes_filled(play_board@, s.spec_notes()),
            group_consistent(s.spec_puzzle(), s.spec_notes()),
    {
        let board_copy = play_board.clone();
        let mut filler = NotesManager::new(play_board);
        filler.fill();
        let s = Solver { puzzle: board_copy, notes_manager: filler };
        proof {
            lemma_filled_group_consistent(s.spec_puzzle(), s.spec_notes());
            assert forall|i: int|
                0 <= i < 81 && #[trigger] s.spec_notes()[i] != 0 implies s.spec_puzzle()[i]
                == 0 by {
                let r = i / 9;
                let c = i % 9;
                assert(valid_cell(r, c) && cell_index(r, c) == i);
                if s.spec_puzzle()[i] != 0 {
                    assert(s.spec_notes()[cell_index(r, c)] == 0);
                }
            }
        }
        s
    }

    /// The board as far as it has been determined; unsolved cells stay 0.
    pub fn get_solution(&self) -> (p: Puzzle)
        ensures
            p@ == self.spec_puzzle(),
    {
        self.puzzle.clone()
    }

    /// Run the elimination loop to a fixed point or to the iteration cap:
    /// the result is exactly `solve_spec` of the entry state. Digits already
    /// on the board are never overwritten, candidates are only ever narrowed,
    /// and on exit either the five techniques are at a fixed point or the
    /// full hundred progressing iterations were spent.
    pub fn solve(&mut self)
        requires
            old(self).wf(),
        ensures
            final(self).wf(),
            clues_preserved(old(self).spec_puzzle(), final(self).spec_puzzle()),
            notes_le(final(self).spec_notes(), old(self).spec_notes()),
            commits_from(old(self).spec_puzzle(), final(self).spec_puzzle(), old(self).spec_notes()),
            final(self).spec_puzzle() == solve_spec(
                old(self).spec_puzzle(),
                old(self).spec_notes(),
            ).0,
            final(self).spec_notes() == solve_spec(
                old(self).spec_puzzle(),
                old(self).spec_notes(),
            ).1,
            solve_steps(old(self).spec_puzzle(), old(self).spec_notes(), 100) == 100
                || !solve_step(final(self).spec_puzzle(), final(self).spec_notes()).2,
            group_consistent(old(self).spec_puzzle(), old(self).spec_notes())
                ==> group_consistent(final(self).spec_puzzle(), final(self).spec_notes()),
    {
        let ghost p0 = old(self).spec_puzzle();
        let ghost n0 = old(self).spec_notes();
        let iterations_limit: usize = 100;
        let mut iterations_counter: usize = 0;
        loop
            invariant
                self.wf(),
                puzzle_wf(p0),
                notes_wf(n0),
                clues_preserved(p0, self.spec_puzzle()),
                notes_le(self.spec_notes(), n0),
                commits_from(p0, self.spec_puzzle(), n0),
                iterations_counter <= 100,
                iterations_limit == 100,
                solve_upto(self.spec_puzzle(), self.spec_notes(), 100 - iterations_counter as int)
                    == solve_spec(p0, n0),
                iterations_counter + solve_steps(
                    self.spec_puzzle(),
                    self.spec_notes(),
                    100 - iterations_counter as int,
                ) == solve_steps(p0, n0, 100),
                group_consistent(p0, n0) ==> group_consistent(
                    self.spec_puzzle(),
                    self.spec_notes(),
                ),
            ensures
                self.wf(),
                clues_preserved(p0, self.spec_puzzle()),
                notes_le(self.spec_notes(), n0),
                commits_from(p0, self.spec_puzzle(), n0),
                self.spec_puzzle() == solve_spec(p0, n0).0,
                self.spec_notes() == solve_spec(p0, n0).1,
                solve_steps(p0, n0, 100) == 100 || !solve_step(
                    self.spec_puzzle(),
                    self.spec_notes(),
                ).2,
                group_consistent(p0, n0) ==> group_consistent(
                    self.spec_puzzle(),
                    self.spec_notes(),
                ),
            decreases 100 - iterations_counter,
        {
            if !(iterations_counter < iterations_limit) {
                proof {
                    assert(solve_upto(self.spec_puzzle(), self.spec_notes(), 0) == (
                        self.spec_puzzle(),
                        self.spec_notes(),
                    ));
                    assert(solve_steps(self.spec_puzzle(), self.spec_notes(), 0) == 0);
                }
                break;
            }
            let ghost p_pre = self.spec_puzzle();
            let ghost n_pre = self.spec_notes();
            let ghost fuel = 100 - iterations_counter as int;
            let mut progress = self.set_obvious_ones();
            if !progress {
                let ghost p_a = self.spec_puzzle();
                let ghost n_a = self.spec_notes();
                progress = self.set_hiden_ones();
                proof {
                    lemma_clues_preserved_trans(p_pre, p_a, self.spec_puzzle());
                    lemma_notes_le_trans(self.spec_notes(), n_a, n_pre);
                    lemma_commits_from_compose(p_pre, p_a, self.spec_puzzle(), n_pre, n_a);
                }
            }
            if !progress {
                let ghost n_mid = self.spec_notes();
                let changed = self.notes_manager.set_obvious_pairs();
                proof {
                    lemma_cross_inv(self.spec_puzzle(), n_mid, self.spec_notes());
                    lemma_notes_le_trans(self.spec_notes(), n_mid, n_pre);
                    if group_consistent(self.spec_puzzle(), n_mid) {
                        lemma_group_consistent_narrow(
                            self.spec_puzzle(),
                            n_mid,
                            self.spec_notes(),
                        );
                    }
                }
                progress = changed;
            }
            if !progress {
                let ghost n_mid = self.spec_notes();
                let changed = self.notes_manager.use_square_methods();
                proof {
                    lemma_cross_inv(self.spec_puzzle(), n_mid, self.spec_notes());
                    lemma_notes_le_trans(self.spec_notes(), n_mid, n_pre);
                    if group_consistent(self.spec_puzzle(), n_mid) {
                        lemma_group_consistent_narrow(
                            self.spec_puzzle(),
                            n_mid,
                            self.spec_notes(),
                        );
                    }
                }
                progress = changed;
            }
            proof {
                lemma_clues_preserved_trans(p0, p_pre, self.spec_puzzle());
                lemma_notes_le_trans(self.spec_notes(), n_pre, n0);
                lemma_commits_from_compose(p0, p_pre, self.spec_puzzle(), n0, n_pre);
                assert(solve_step(p_pre, n_pre).0 == self.spec_puzzle());
                assert(solve_step(p_pre, n_pre).1 == self.spec_notes());
                assert(solve_step(p_pre, n_pre).2 == progress);
            }
            if !progress {
                proof {
                    assert(self.spec_puzzle() == p_pre && self.spec_notes() == n_pre);
                    assert(solve_upto(p_pre, n_pre, fuel) == (
                        self.spec_puzzle(),
                        self.spec_notes(),
                    ));
                    assert(solve_steps(p_pre, n_pre, fuel) == 0);
                }
                break;
            }
            proof {
                assert(solve_upto(p_pre, n_pre, fuel) == solve_upto(
                    self.spec_puzzle(),
                    self.spec_notes(),
                    fuel - 1,
                ));
                assert(solve_steps(p_pre, n_pre, fuel) == 1 + solve_steps(
                    self.spec_puzzle(),
                    self.spec_notes(),
                    fuel - 1,
                ));
            }
            iterations_counter = iterations_counter + 1;
        }
    }

    /// Commit every naked single: a cell whose snapshot mask holds exactly
    /// one candidate receives that digit.
    fn set_obvious_ones(&mut self) -> (any_cell_filled: bool)
        requires
            old(self).wf(),
        ensures
            final(self).wf(),
            clues_preserved(old(self).spec_puzzle(), final(self).spec_puzzle()),
            notes_le(final(self).spec_notes(), old(self).spec_notes()),
            any_cell_filled == (final(self).spec_puzzle() != old(self).spec_puzzle()),
            commits_from(old(self).spec_puzzle(), final(self).spec_puzzle(), old(self).spec_notes()),
            forall|i: int|
                0 <= i < 81 ==> (if popcount(#[trigger] old(self).spec_notes()[i]) == 1 {
                    final(self).spec_puzzle()[i] != 0
                } else {
                    final(self).spec_puzzle()[i] == old(self).spec_puzzle()[i]
                }),
            final(self).spec_puzzle() == obvious_ones_spec(
                old(self).spec_puzzle(),
                old(self).spec_notes(),
            ).0,
            final(self).spec_notes() == obvious_ones_spec(
                old(self).spec_puzzle(),
                old(self).spec_notes(),
            ).1,
            !any_cell_filled ==> final(self).spec_notes() == old(self).spec_notes(),
            group_consistent(old(self).spec_puzzle(), old(self).spec_notes())
                ==> group_consistent(final(self).spec_puzzle(), final(self).spec_notes()),
    {
        let ghost p0 = old(self).spec_puzzle();
        let ghost nsnap = old(self).spec_notes();
        let mut any_cell_filled = false;
        let notes = self.notes_manager.get();
        let mut row: usize = 0;
        while row < 9
            invariant
                row <= 9,
                self.wf(),
                puzzle_wf(p0),
                notes_wf(nsnap),
                notes@ == nsnap,
                notes.wf(),
                clues_preserved(p0, self.spec_puzzle()),
                notes_le(self.spec_notes(), nsnap),
                any_cell_filled == (self.spec_puzzle() != p0),
                commits_from(p0, self.spec_puzzle(), nsnap),
                forall|i: int| 0 <= i < 81 && #[trigger] nsnap[i] != 0 ==> p0[i] == 0,
                forall|i: int| row * 9 <= i < 81 ==> self.spec_puzzle()[i] == #[trigger] p0[i],
                forall|i: int|
                    0 <= i < row * 9 ==> (if popcount(#[trigger] nsnap[i]) == 1 {
                        self.spec_puzzle()[i] != 0
                    } else {
                        self.spec_puzzle()[i] == p0[i]
                    }),
                self.spec_puzzle() == obvious_ones_upto(p0, nsnap, nsnap, row * 9).0,
                self.spec_notes() == obvious_ones_upto(p0, nsnap, nsnap, row * 9).1,
                !any_cell_filled ==> self.spec_notes() == nsnap,
                group_consistent(p0, nsnap) ==> group_consistent(
                    self.spec_puzzle(),
                    self.spec_notes(),
                ),
            decreases 9 - row,
        {
            let mut col: usize = 0;
            while col < 9
                invariant
                    row < 9,
                    col <= 9,
                    self.wf(),
                    puzzle_wf(p0),
                    notes_wf(nsnap),
                    notes@ == nsnap,
                    notes.wf(),
                    clues_preserved(p0, self.spec_puzzle()),
                    notes_le(self.spec_notes(), nsnap),
                    any_cell_filled == (self.spec_puzzle() != p0),
                    commits_from(p0, self.spec_puzzle(), nsnap),
                    forall|i: int| 0 <= i < 81 && #[trigger] nsnap[i] != 0 ==> p0[i] == 0,
                    forall|i: int|
                        row * 9 + col <= i < 81 ==> self.spec_puzzle()[i] == #[trigger] p0[i],
                    forall|i: int|
                        0 <= i < row * 9 + col ==> (if popcount(#[trigger] nsnap[i]) == 1 {
                            self.spec_puzzle()[i] != 0
                        } else {
                            self.spec_puzzle()[i] == p0[i]
                        }),
                    self.spec_puzzle() == obvious_ones_upto(p0, nsnap, nsnap, row * 9 + col).0,
                    self.spec_notes() == obvious_ones_upto(p0, nsnap, nsnap, row * 9 + col).1,
                    !any_cell_filled ==> self.spec_notes() == nsnap,
                    group_consistent(p0, nsnap) ==> group_consistent(
                        self.spec_puzzle(),
                        self.spec_notes(),
                    ),
                decreases 9 - col,
            {
                let note = notes.get(row, col);
                if count_ones(note) == 1 {
                    proof {
                        if note == 0 {
                            lemma_popcount_zero(16);
                        }
                    }
                    let tz = note.trailing_zeros();
                    proof {
                        vstd::std_specs::bits::axiom_u16_trailing_zeros(note);
                        if tz >= 9 {
                            lemma_high_bits(note, tz as u16);
                            assert((note >> (tz as u16)) & 1 == 1);
                        }
                        assert(tz < 9);
                        assert(self.spec_puzzle()[cell_index(row as int, col as int)] == p0[
                            cell_index(row as int, col as int)
                        ]);
                        assert(note == nsnap[cell_index(row as int, col as int)]);
                    }
                    let value = (tz + 1) as u8;
                    let ghost p_pre = self.spec_puzzle();
                    let ghost n_pre = self.spec_notes();
                    self.set(row, col, value);
                    proof {
                        lemma_clues_preserved_trans(p0, p_pre, self.spec_puzzle());
                        lemma_notes_le_trans(self.spec_notes(), n_pre, nsnap);
                        assert(self.spec_puzzle()[cell_index(row as int, col as int)] != p0[
                            cell_index(row as int, col as int)
                        ]);
                        assert(has_digit(nsnap[cell_index(row as int, col as int)], value as int));
                        assert forall|i: int|
                            0 <= i < 81 && self.spec_puzzle()[i] != #[trigger] p0[i] implies p0[i]
                            == 0 && has_digit(nsnap[i], self.spec_puzzle()[i] as int) by {
                            if i != cell_index(row as int, col as int) {
                                assert(self.spec_puzzle()[i] == p_pre[i]);
                            }
                        }
                        assert((row * 9 + col) / 9 == row as int && (row * 9 + col) % 9
                            == col as int) by (nonlinear_arith)
                            requires
                                row < 9,
                                col < 9,
                        ;
                        assert(self.spec_puzzle() == obvious_ones_upto(
                            p0,
                            nsnap,
                            nsnap,
                            row * 9 + col + 1,
                        ).0);
                        assert(self.spec_notes() == obvious_ones_upto(
                            p0,
                            nsnap,
                            nsnap,
                            row * 9 + col + 1,
                        ).1);
                    }
                    any_cell_filled = true;
                } else {
                    proof {
                        assert(self.spec_puzzle() == obvious_ones_upto(
                            p0,
                            nsnap,
                            nsnap,
                            row * 9 + col + 1,
                        ).0);
                        assert(self.spec_notes() == obvious_ones_upto(
                            p0,
                            nsnap,
                            nsnap,
                            row * 9 + col + 1,
                        ).1);
                    }
                }
                col = col + 1;
            }
            row = row + 1;
        }
        any_cell_filled
    }

    /// Commit every hidden single: for each group and digit, a lone possible
    /// position receives that digit.
    fn set_hiden_ones(&mut self) -> (result: bool)
        requires
            old(self).wf(),
        ensures
            final(self).wf(),
            clues_preserved(old(self).spec_puzzle(), final(self).spec_puzzle()),
            notes_le(final(self).spec_notes(), old(self).spec_notes()),
            result == (final(self).spec_puzzle() != old(self).spec_puzzle()),
            commits_from(old(self).spec_puzzle(), final(self).spec_puzzle(), old(self).spec_notes()),
            final(self).spec_puzzle() == hidden_ones_spec(
                old(self).spec_puzzle(),
                old(self).spec_notes(),
            ).0,
            final(self).spec_notes() == hidden_ones_spec(
                old(self).spec_puzzle(),
                old(self).spec_notes(),
            ).1,
            !result ==> final(self).spec_notes() == old(self).spec_notes(),
            group_consistent(old(self).spec_puzzle(), old(self).spec_notes())
                ==> group_consistent(final(self).spec_puzzle(), final(self).spec_notes()),
    {
        let ghost p0 = old(self).spec_puzzle();
        let ghost n0 = old(self).spec_notes();
        let mut result = false;
        let mut value: usize = 1;
        while value <= 9
            invariant
                1 <= value <= 10,
                self.wf(),
                puzzle_wf(p0),
                notes_wf(n0),
                clues_preserved(p0, self.spec_puzzle()),
                notes_le(self.spec_notes(), n0),
                result == (self.spec_puzzle() != p0),
                commits_from(p0, self.spec_puzzle(), n0),
                self.spec_puzzle() == hidden_ones_upto(p0, n0, value as int).0,
                self.spec_notes() == hidden_ones_upto(p0, n0, value as int).1,
                !result ==> self.spec_notes() == n0,
                group_consistent(p0, n0) ==> group_consistent(
                    self.spec_puzzle(),
                    self.spec_notes(),
                ),
            decreases 10 - value,
        {
            let ghost p_v = self.spec_puzzle();
            let ghost n_v = self.spec_notes();
            let mut index: usize = 0;
            while index < 9
                invariant
                    1 <= value <= 9,
                    index <= 9,
                    self.wf(),
                    puzzle_wf(p0),
                    notes_wf(n0),
                    clues_preserved(p0, self.spec_puzzle()),
                    notes_le(self.spec_notes(), n0),
                    result == (self.spec_puzzle() != p0),
                    commits_from(p0, self.spec_puzzle(), n0),
                    p_v == hidden_ones_upto(p0, n0, value as int).0,
                    n_v == hidden_ones_upto(p0, n0, value as int).1,
                    self.spec_puzzle() == hidden_ones_groups_upto(
                        p_v,
                        n_v,
                        value as int,
                        3 * index as int,
                    ).0,
                    self.spec_notes() == hidden_ones_groups_upto(
                        p_v,
                        n_v,
                        value as int,
                        3 * index as int,
                    ).1,
                    !result ==> self.spec_notes() == n0,
                    group_consistent(p0, n0) ==> group_consistent(
                        self.spec_puzzle(),
                        self.spec_notes(),
                    ),
                decreases 9 - index,
            {
                let groups = all_coordinates(index);
                let mut g: usize = 0;
                while g < 3
                    invariant
                        1 <= value <= 9,
                        index < 9,
                        g <= 3,
                        self.wf(),
                        puzzle_wf(p0),
                        notes_wf(n0),
                        clues_preserved(p0, self.spec_puzzle()),
                        notes_le(self.spec_notes(), n0),
                        result == (self.spec_puzzle() != p0),
                        commits_from(p0, self.spec_puzzle(), n0),
                        p_v == hidden_ones_upto(p0, n0, value as int).0,
                        n_v == hidden_ones_upto(p0, n0, value as int).1,
                        self.spec_puzzle() == hidden_ones_groups_upto(
                            p_v,
                            n_v,
                            value as int,
                            3 * index as int + g as int,
                        ).0,
                        self.spec_notes() == hidden_ones_groups_upto(
                            p_v,
                            n_v,
                            value as int,
                            3 * index as int + g as int,
                        ).1,
                        !result ==> self.spec_notes() == n0,
                        group_consistent(p0, n0) ==> group_consistent(
                            self.spec_puzzle(),
                            self.spec_notes(),
                        ),
                        groups@.len() == 3,
                        forall|j: int| 0 <= j < 3 ==> coords_wf(#[trigger] groups@[j]@),
                        forall|j: int| 0 <= j < 3 ==> #[trigger] groups@[j]@ == spec_group(
                            3 * index as int + j,
                        ),
                    decreases 3 - g,
                {
                    let ghost p_pre = self.spec_puzzle();
                    let ghost n_pre = self.spec_notes();
                    let f = self.set_hidden(&groups[g], value);
                    proof {
                        lemma_fill_compose(p0, p_pre, self.spec_puzzle(), result, f);
                        lemma_notes_le_trans(self.spec_notes(), n_pre, n0);
                        lemma_commits_from_compose(p0, p_pre, self.spec_puzzle(), n0, n_pre);
                        assert(self.spec_puzzle() == hidden_ones_groups_upto(
                            p_v,
                            n_v,
                            value as int,
                            3 * index as int + g as int + 1,
                        ).0);
                        assert(self.spec_notes() == hidden_ones_groups_upto(
                            p_v,
                            n_v,
                            value as int,
                            3 * index as int + g as int + 1,
                        ).1);
                        if !(result || f) {
                            assert(self.spec_notes() == n_pre);
                        }
                    }
                    result = result || f;
                    g = g + 1;
                }
                index = index + 1;
            }
            proof {
                assert(self.spec_puzzle() == hidden_ones_upto(p0, n0, value as int + 1).0);
                assert(self.spec_notes() == hidden_ones_upto(p0, n0, value as int + 1).1);
            }
            value = value + 1;
        }
        result
    }

    /// Commit the hidden single of one group and digit, if there is one.
    fn set_hidden(&mut self, coordinates: &Coordinates, value: usize) -> (r: bool)
        requires
            old(self).wf(),
            coords_wf(coordinates@),
            1 <= value <= 9,
        ensures
            final(self).wf(),
            clues_preserved(old(self).spec_puzzle(), final(self).spec_puzzle()),
            notes_le(final(self).spec_notes(), old(self).spec_notes()),
            r == (final(self).spec_puzzle() != old(self).spec_puzzle()),
            commits_from(old(self).spec_puzzle(), final(self).spec_puzzle(), old(self).spec_notes()),
            final(self).spec_puzzle() == set_hidden_spec(
                old(self).spec_puzzle(),
                old(self).spec_notes(),
                coordinates@,
                value as int,
            ).0,
            final(self).spec_notes() == set_hidden_spec(
                old(self).spec_puzzle(),
                old(self).spec_notes(),
                coordinates@,
                value as int,
            ).1,
            !r ==> final(self).spec_notes() == old(self).spec_notes(),
            group_consistent(old(self).spec_puzzle(), old(self).spec_notes())
                ==> group_consistent(final(self).spec_puzzle(), final(self).spec_notes()),
    {
        match self.notes_manager.get_hidden(coordinates, value) {
            Some(point) => {
                let (row, col) = point;
                proof {
                    let cs = coordinates@;
                    let k = choose|k: int|
                        0 <= k < 9 && #[trigger] cs[k] == point && has_digit(
                            self.spec_notes()[coord_index(cs, k)],
                            value as int,
                        ) && (forall|j: int|
                            0 <= j < 9 && j != k ==> !has_digit(
                                self.spec_notes()[#[trigger] coord_index(cs, j)],
                                value as int,
                            ));
                    assert(valid_cell(cs[k].0 as int, cs[k].1 as int));
                    assert(coord_index(cs, k) == cell_index(row as int, col as int));
                    lemma_bit_nonzero(
                        self.spec_notes()[coord_index(cs, k)],
                        (value - 1) as u16,
                    );
                    assert(self.spec_notes()[cell_index(row as int, col as int)] != 0);
                    assert(unique_position(self.spec_notes(), cs, value as int));
                    let k2 = the_position(self.spec_notes(), cs, value as int);
                    if k2 != k {
                        assert(!has_digit(
                            self.spec_notes()[coord_index(cs, k2)],
                            value as int,
                        ));
                    }
                    assert(k2 == k);
                }
                let ghost p_pre = self.spec_puzzle();
                let ghost n_pre = self.spec_notes();
                self.set(row, col, value as u8);
                proof {
                    assert(self.spec_puzzle()[cell_index(row as int, col as int)] != p_pre[
                        cell_index(row as int, col as int)
                    ]);
                    assert(has_digit(
                        n_pre[cell_index(row as int, col as int)],
                        value as int,
                    ));
                    assert forall|i: int|
                        0 <= i < 81 && self.spec_puzzle()[i] != #[trigger] p_pre[i] implies p_pre[i]
                        == 0 && has_digit(n_pre[i], self.spec_puzzle()[i] as int) by {
                        assert(i == cell_index(row as int, col as int));
                    }
                }
                true
            },
            None => {
                proof {
                    let cs = coordinates@;
                    if unique_position(self.spec_notes(), cs, value as int) {
                        let k = the_position(self.spec_notes(), cs, value as int);
                        if forall|j: int|
                            0 <= j < 9 ==> !has_digit(
                                self.spec_notes()[#[trigger] coord_index(cs, j)],
                                value as int,
                            ) {
                            assert(!has_digit(
                                self.spec_notes()[coord_index(cs, k)],
                                value as int,
                            ));
                        } else {
                            let (k1, k2) = choose|k1: int, k2: int|
                                0 <= k1 < k2 < 9 && has_digit(
                                    self.spec_notes()[#[trigger] coord_index(cs, k1)],
                                    value as int,
                                ) && has_digit(
                                    self.spec_notes()[#[trigger] coord_index(cs, k2)],
                                    value as int,
                                );
                            if k1 != k {
                                assert(!has_digit(
                                    self.spec_notes()[coord_index(cs, k1)],
                                    value as int,
                                ));
                            } else {
                                assert(!has_digit(
                                    self.spec_notes()[coord_index(cs, k2)],
                                    value as int,
                                ));
                            }
                        }
                    }
                }
                false
            },
        }
    }

    /// Write a digit into an empty cell and propagate its elimination across
    /// the cell's row, column, and box.
    fn set(&mut self, row: usize, col: usize, value: u8)
        requires
            old(self).wf(),
            row < 9,
            col < 9,
            1 <= value <= 9,
            old(self).spec_puzzle()[cell_index(row as int, col as int)] == 0,
        ensures
            final(self).wf(),
            final(self).spec_puzzle() == old(self).spec_puzzle().update(
                cell_index(row as int, col as int),
                value,
            ),
            clues_preserved(old(self).spec_puzzle(), final(self).spec_puzzle()),
            notes_le(final(self).spec_notes(), old(self).spec_notes()),
            final(self).spec_notes()[cell_index(row as int, col as int)] == 0,
            final(self).spec_notes() == adjusted_notes(
                old(self).spec_notes(),
                row as int,
                col as int,
                value as int,
            ),
            group_consistent(old(self).spec_puzzle(), old(self).spec_notes())
                ==> group_consistent(final(self).spec_puzzle(), final(self).spec_notes()),
    {
        self.puzzle.set(row, col, value);
        self.notes_manager.adjust(row, col, value);
        proof {
            if group_consistent(old(self).spec_puzzle(), old(self).spec_notes()) {
                lemma_group_consistent_commit(
                    old(self).spec_puzzle(),
                    old(self).spec_notes(),
                    row as int,
                    col as int,
                    value as int,
                );
            }
            assert forall|i: int|
                0 <= i < 81 && #[trigger] self.spec_notes()[i] != 0 implies self.spec_puzzle()[i]
                == 0 by {
                let r = i / 9;
                let c = i % 9;
                assert(valid_cell(r, c) && cell_index(r, c) == i);
                if i != cell_index(row as int, col as int) {
                    assert(mask_le(self.spec_notes()[i], old(self).spec_notes()[i]));
                    lemma_mask_le_nonzero(self.spec_notes()[i], old(self).spec_notes()[i]);
                }
            }
        }
    }
}

} // verus!
