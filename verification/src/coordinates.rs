//! Enumeration of the 27 groups: rows, columns, and 3x3 boxes.

use vstd::prelude::*;
use crate::grid::{cell_index, valid_cell, same_box};

verus! {

pub type Point = (usize, usize);

/// The nine cells of one group, in its fixed traversal order.
pub type Coordinates = Vec<Point>;

/// Nine in-range, pairwise distinct cells.
pub open spec fn coords_wf(cs: Seq<Point>) -> bool {
    &&& cs.len() == 9
    &&& forall|k: int| 0 <= k < 9 ==> valid_cell(#[trigger] cs[k].0 as int, cs[k].1 as int)
    &&& forall|k1: int, k2: int|
        0 <= k1 < 9 && 0 <= k2 < 9 && k1 != k2 ==> #[trigger] cs[k1] != #[trigger] cs[k2]
}

pub open spec fn is_row_coords(cs: Seq<Point>, row: int) -> bool {
    cs.len() == 9 && forall|k: int|
        0 <= k < 9 ==> (#[trigger] cs[k]).0 == row && cs[k].1 == k
}

pub open spec fn is_col_coords(cs: Seq<Point>, col: int) -> bool {
    cs.len() == 9 && forall|k: int|
        0 <= k < 9 ==> (#[trigger] cs[k]).0 == k && cs[k].1 == col
}

/// Box (sx, sy) covers rows 3*sx.. and columns 3*sy.., in row-major order.
pub open spec fn is_box_coords(cs: Seq<Point>, sx: int, sy: int) -> bool {
    cs.len() == 9 && forall|k: int|
        0 <= k < 9 ==> (#[trigger] cs[k]).0 == 3 * sx + k / 3 && cs[k].1 == 3 * sy + k % 3
}

/// The cells of row `row`, as the enumerator produces them.
pub open spec fn spec_row_coords(row: int) -> Seq<Point> {
    Seq::new(9, |k: int| (row as usize, k as usize))
}

/// The cells of column `col`, as the enumerator produces them.
pub open spec fn spec_col_coords(col: int) -> Seq<Point> {
    Seq::new(9, |k: int| (k as usize, col as usize))
}

/// The cells of box (sx, sy), as the enumerator produces them.
pub open spec fn spec_box_coords(sx: int, sy: int) -> Seq<Point> {
    Seq::new(9, |k: int| ((3 * sx + k / 3) as usize, (3 * sy + k % 3) as usize))
}

/// The 27 groups in the order every sweep traverses them: for each index
/// 0..9, the row, the column, and then the box at (index % 3, index / 3).
pub open spec fn spec_group(g: int) -> Seq<Point> {
    let index = g / 3;
    if g % 3 == 0 {
        spec_row_coords(index)
    } else if g % 3 == 1 {
        spec_col_coords(index)
    } else {
        spec_box_coords(index % 3, index / 3)
    }
}

pub proof fn lemma_spec_group_wf(g: int)
    requires
        0 <= g < 27,
    ensures
        coords_wf(spec_group(g)),
{
    let index = g / 3;
    assert(0 <= index < 9);
    if g % 3 == 0 {
        assert(is_row_coords(spec_row_coords(index), index));
        lemma_row_coords_wf(spec_group(g), index);
    } else if g % 3 == 1 {
        assert(is_col_coords(spec_col_coords(index), index));
        lemma_col_coords_wf(spec_group(g), index);
    } else {
        assert(is_box_coords(spec_box_coords(index % 3, index / 3), index % 3, index / 3));
        lemma_box_coords_wf(spec_group(g), index % 3, index / 3);
    }
}

/// Flat index of the group's cell at position `k`.
pub open spec fn coord_index(cs: Seq<Point>, k: int) -> int {
    cell_index(cs[k].0 as int, cs[k].1 as int)
}

/// Flat index `i` belongs to one of the group's cells.
pub open spec fn coord_member(cs: Seq<Point>, i: int) -> bool {
    exists|k: int| 0 <= k < 9 && #[trigger] coord_index(cs, k) == i
}

/// Flat index `i` belongs to one of the group's first `k` cells.
pub open spec fn coord_member_upto(cs: Seq<Point>, i: int, k: int) -> bool {
    exists|j: int| 0 <= j < k && #[trigger] coord_index(cs, j) == i
}

pub proof fn lemma_coord_member_full(cs: Seq<Point>, i: int)
    ensures
        coord_member_upto(cs, i, 9) <==> coord_member(cs, i),
{
}

/// Distinct positions of a well-formed group sit on distinct flat indices.
pub proof fn lemma_coord_index_distinct(cs: Seq<Point>, j: int, k: int)
    requires
        coords_wf(cs),
        0 <= j < 9,
        0 <= k < 9,
        j != k,
    ensures
        coord_index(cs, j) != coord_index(cs, k),
{
    if coord_index(cs, j) == coord_index(cs, k) {
        lemma_cell_index_injective(
            cs[j].0 as int,
            cs[j].1 as int,
            cs[k].0 as int,
            cs[k].1 as int,
        );
        assert(cs[j] == cs[k]);
    }
}

/// The flat index determines the cell.
pub proof fn lemma_cell_index_injective(r1: int, c1: int, r2: int, c2: int)
    requires
        valid_cell(r1, c1),
        valid_cell(r2, c2),
        cell_index(r1, c1) == cell_index(r2, c2),
    ensures
        r1 == r2 && c1 == c2,
{
}

pub proof fn lemma_row_coords_wf(cs: Seq<Point>, row: int)
    requires
        is_row_coords(cs, row),
        0 <= row < 9,
    ensures
        coords_wf(cs),
{
}

pub proof fn lemma_col_coords_wf(cs: Seq<Point>, col: int)
    requires
        is_col_coords(cs, col),
        0 <= col < 9,
    ensures
        coords_wf(cs),
{
}

pub proof fn lemma_box_coords_wf(cs: Seq<Point>, sx: int, sy: int)
    requires
        is_box_coords(cs, sx, sy),
        0 <= sx < 3,
        0 <= sy < 3,
    ensures
        coords_wf(cs),
{
    assert forall|k1: int, k2: int|
        0 <= k1 < 9 && 0 <= k2 < 9 && k1 != k2 implies #[trigger] cs[k1] != #[trigger] cs[k2] by {
        if cs[k1] == cs[k2] {
            assert(k1 / 3 == k2 / 3 && k1 % 3 == k2 % 3);
            assert(k1 == 3 * (k1 / 3) + k1 % 3);
            assert(k2 == 3 * (k2 / 3) + k2 % 3);
        }
    }
}

/// Membership in a row group is exactly "lies in that row".
pub proof fn lemma_row_member(cs: Seq<Point>, row: int, r: int, c: int)
    requires
        is_row_coords(cs, row),
        0 <= row < 9,
        valid_cell(r, c),
    ensures
        coord_member(cs, cell_index(r, c)) <==> r == row,
{
    if r == row {
        assert(coord_index(cs, c) == cell_index(r, c));
    }
    if coord_member(cs, cell_index(r, c)) {
        let k = choose|k: int| 0 <= k < 9 && #[trigger] coord_index(cs, k) == cell_index(r, c);
        lemma_cell_index_injective(cs[k].0 as int, cs[k].1 as int, r, c);
    }
}

/// Membership in a column group is exactly "lies in that column".
pub proof fn lemma_col_member(cs: Seq<Point>, col: int, r: int, c: int)
    requires
        is_col_coords(cs, col),
        0 <= col < 9,
        valid_cell(r, c),
    ensures
        coord_member(cs, cell_index(r, c)) <==> c == col,
{
    if c == col {
        assert(coord_index(cs, r) == cell_index(r, c));
    }
    if coord_member(cs, cell_index(r, c)) {
        let k = choose|k: int| 0 <= k < 9 && #[trigger] coord_index(cs, k) == cell_index(r, c);
        lemma_cell_index_injective(cs[k].0 as int, cs[k].1 as int, r, c);
    }
}

/// Membership in a box group is exactly "shares that box".
pub proof fn lemma_box_member(cs: Seq<Point>, sx: int, sy: int, r: int, c: int)
    requires
        is_box_coords(cs, sx, sy),
        0 <= sx < 3,
        0 <= sy < 3,
        valid_cell(r, c),
    ensures
        coord_member(cs, cell_index(r, c)) <==> (r / 3 == sx && c / 3 == sy),
{
    if r / 3 == sx && c / 3 == sy {
        let k = (r % 3) * 3 + c % 3;
        assert(r == 3 * (r / 3) + r % 3);
        assert(c == 3 * (c / 3) + c % 3);
        assert(k / 3 == r % 3 && k % 3 == c % 3) by (nonlinear_arith)
            requires
                k == (r % 3) * 3 + c % 3,
                0 <= r % 3 < 3,
                0 <= c % 3 < 3,
        ;
        assert(cs[k].0 as int == 3 * sx + k / 3 == r);
        assert(cs[k].1 as int == 3 * sy + k % 3 == c);
        assert(coord_index(cs, k) == cell_index(r, c));
    }
    if coord_member(cs, cell_index(r, c)) {
        let k = choose|k: int| 0 <= k < 9 && #[trigger] coord_index(cs, k) == cell_index(r, c);
        lemma_cell_index_injective(cs[k].0 as int, cs[k].1 as int, r, c);
        assert(r == 3 * sx + k / 3 && c == 3 * sy + k % 3);
        assert(r / 3 == sx && c / 3 == sy) by (nonlinear_arith)
            requires
                r == 3 * sx + k / 3,
                c == 3 * sy + k % 3,
                0 <= k < 9,
        ;
    }
}

/// Box membership phrased through `same_box`.
pub proof fn lemma_box_member_same_box(cs: Seq<Point>, r0: int, c0: int, r: int, c: int)
    requires
        is_box_coords(cs, r0 / 3, c0 / 3),
        valid_cell(r0, c0),
        valid_cell(r, c),
    ensures
        coord_member(cs, cell_index(r, c)) <==> same_box(r0, c0, r, c),
{
    lemma_box_member(cs, r0 / 3, c0 / 3, r, c);
}

/// The nine cells of row `row`, left to right.
pub fn get_row_coordinates(row: usize) -> (c: Coordinates)
    requires
        row < 9,
    ensures
        is_row_coords(c@, row as int),
        coords_wf(c@),
        c@ == spec_row_coords(row as int),
{
    let mut c: Coordinates = Vec::new();
    let mut i: usize = 0;
    while i < 9
        invariant
            i <= 9,
            c@.len() == i,
            forall|k: int| 0 <= k < i ==> (#[trigger] c@[k]).0 == row && c@[k].1 == k,
        decreases 9 - i,
    {
        c.push((row, i));
        i = i + 1;
    }
    proof {
        lemma_row_coords_wf(c@, row as int);
        assert(c@ =~= spec_row_coords(row as int));
    }
    c
}

/// The nine cells of column `col`, top to bottom.
pub fn get_col_coordinates(col: usize) -> (c: Coordinates)
    requires
        col < 9,
    ensures
        is_col_coords(c@, col as int),
        coords_wf(c@),
        c@ == spec_col_coords(col as int),
{
    let mut c: Coordinates = Vec::new();
    let mut i: usize = 0;
    while i < 9
        invariant
            i <= 9,
            c@.len() == i,
            forall|k: int| 0 <= k < i ==> (#[trigger] c@[k]).0 == k && c@[k].1 == col,
        decreases 9 - i,
    {
        c.push((i, col));
        i = i + 1;
    }
    proof {
        lemma_col_coords_wf(c@, col as int);
        assert(c@ =~= spec_col_coords(col as int));
    }
    c
}

/// The nine cells of box (square.0, square.1), row-major within the box.
pub fn get_square_coordinates(square: Point) -> (c: Coordinates)
    requires
        square.0 < 3,
        square.1 < 3,
    ensures
        is_box_coords(c@, square.0 as int, square.1 as int),
        coords_wf(c@),
        c@ == spec_box_coords(square.0 as int, square.1 as int),
{
    let (square_x, square_y) = square;
    let mut c: Coordinates = Vec::new();
    let mut k: usize = 0;
    while k < 9
        invariant
            k <= 9,
            c@.len() == k,
            square_x < 3,
            square_y < 3,
            forall|j: int|
                0 <= j < k ==> (#[trigger] c@[j]).0 == 3 * square_x + j / 3 && c@[j].1 == 3
                    * square_y + j % 3,
        decreases 9 - k,
    {
        c.push((3 * square_x + k / 3, 3 * square_y + k % 3));
        k = k + 1;
    }
    proof {
        lemma_box_coords_wf(c@, square.0 as int, square.1 as int);
        assert(c@ =~= spec_box_coords(square.0 as int, square.1 as int));
    }
    c
}

/// Digit `d` is already placed on one of the group's cells.
pub open spec fn digit_in_coords(p: Seq<u8>, cs: Seq<Point>, d: int) -> bool {
    exists|k: int|
        0 <= k < 9 && p[cell_index(#[trigger] cs[k].0 as int, cs[k].1 as int)] as int == d
}

/// Digit `d` is already placed on one of the group's first `k` cells.
pub open spec fn digit_in_coords_upto(p: Seq<u8>, cs: Seq<Point>, d: int, k: int) -> bool {
    exists|j: int|
        0 <= j < k && p[cell_index(#[trigger] cs[j].0 as int, cs[j].1 as int)] as int == d
}

pub proof fn lemma_digit_in_coords_full(p: Seq<u8>, cs: Seq<Point>, d: int)
    ensures
        digit_in_coords_upto(p, cs, d, 9) <==> digit_in_coords(p, cs, d),
{
}

pub proof fn lemma_row_digits(p: Seq<u8>, cs: Seq<Point>, row: int, d: int)
    requires
        is_row_coords(cs, row),
        0 <= row < 9,
        p.len() == 81,
    ensures
        digit_in_coords(p, cs, d) <==> crate::grid::digit_in_row(p, row, d),
{
    if digit_in_coords(p, cs, d) {
        let k = choose|k: int|
            0 <= k < 9 && p[cell_index(#[trigger] cs[k].0 as int, cs[k].1 as int)] as int == d;
        assert(p[cell_index(row, k)] as int == d);
    }
    if crate::grid::digit_in_row(p, row, d) {
        let c = choose|c: int| 0 <= c < 9 && p[cell_index(row, c)] as int == d;
        assert(p[cell_index(cs[c].0 as int, cs[c].1 as int)] as int == d);
    }
}

pub proof fn lemma_col_digits(p: Seq<u8>, cs: Seq<Point>, col: int, d: int)
    requires
        is_col_coords(cs, col),
        0 <= col < 9,
        p.len() == 81,
    ensures
        digit_in_coords(p, cs, d) <==> crate::grid::digit_in_col(p, col, d),
{
    if digit_in_coords(p, cs, d) {
        let k = choose|k: int|
            0 <= k < 9 && p[cell_index(#[trigger] cs[k].0 as int, cs[k].1 as int)] as int == d;
        assert(p[cell_index(k, col)] as int == d);
    }
    if crate::grid::digit_in_col(p, col, d) {
        let r = choose|r: int| 0 <= r < 9 && p[cell_index(r, col)] as int == d;
        assert(p[cell_index(cs[r].0 as int, cs[r].1 as int)] as int == d);
    }
}

pub proof fn lemma_box_digits(p: Seq<u8>, cs: Seq<Point>, r0: int, c0: int, d: int)
    requires
        is_box_coords(cs, r0 / 3, c0 / 3),
        valid_cell(r0, c0),
        p.len() == 81,
    ensures
        digit_in_coords(p, cs, d) <==> crate::grid::digit_in_box(p, r0, c0, d),
{
    let sx = r0 / 3;
    let sy = c0 / 3;
    if digit_in_coords(p, cs, d) {
        let k = choose|k: int|
            0 <= k < 9 && p[cell_index(#[trigger] cs[k].0 as int, cs[k].1 as int)] as int == d;
        let r2 = cs[k].0 as int;
        let c2 = cs[k].1 as int;
        assert(0 <= k / 3 < 3 && 0 <= k % 3 < 3);
        assert(valid_cell(r2, c2));
        assert(r2 / 3 == sx && c2 / 3 == sy) by (nonlinear_arith)
            requires
                r2 == 3 * sx + k / 3,
                c2 == 3 * sy + k % 3,
                0 <= k < 9,
                0 <= sx < 3,
                0 <= sy < 3,
        ;
        assert(same_box(r0, c0, r2, c2));
        assert(p[cell_index(r2, c2)] as int == d);
        assert(crate::grid::digit_in_box(p, r0, c0, d));
    }
    if crate::grid::digit_in_box(p, r0, c0, d) {
        let (r2, c2) = choose|r2: int, c2: int|
            valid_cell(r2, c2) && same_box(r0, c0, r2, c2) && p[cell_index(r2, c2)] as int == d;
        lemma_box_member(cs, sx, sy, r2, c2);
        let k = choose|k: int|
            0 <= k < 9 && cell_index(#[trigger] cs[k].0 as int, cs[k].1 as int) == cell_index(
                r2,
                c2,
            );
        assert(p[cell_index(cs[k].0 as int, cs[k].1 as int)] as int == d);
    }
}

/// The row, column, and box group traversed for one index of the outer sweep.
pub fn all_coordinates(index: usize) -> (cs: Vec<Coordinates>)
    requires
        index < 9,
    ensures
        cs@.len() == 3,
        is_row_coords(cs@[0]@, index as int),
        is_col_coords(cs@[1]@, index as int),
        is_box_coords(cs@[2]@, (index % 3) as int, (index / 3) as int),
        forall|g: int| 0 <= g < 3 ==> coords_wf(#[trigger] cs@[g]@),
        forall|g: int| 0 <= g < 3 ==> #[trigger] cs@[g]@ == spec_group(3 * index + g),
{
    let mut cs: Vec<Coordinates> = Vec::new();
    cs.push(get_row_coordinates(index));
    cs.push(get_col_coordinates(index));
    cs.push(get_square_coordinates((index % 3, index / 3)));
    proof {
        assert((3 * index as int) / 3 == index && (3 * index as int) % 3 == 0) by (nonlinear_arith);
        assert((3 * index as int + 1) / 3 == index && (3 * index as int + 1) % 3 == 1)
            by (nonlinear_arith);
        assert((3 * index as int + 2) / 3 == index && (3 * index as int + 2) % 3 == 2)
            by (nonlinear_arith);
    }
    cs
}

} // verus!
