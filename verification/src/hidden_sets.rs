//! Hidden pairs: two digits confined to the same two cells of a group let
//! those cells be narrowed down to exactly that pair.

use vstd::prelude::*;
use crate::bits::{
    count_ones, has_digit, lemma_and_bit, lemma_mask_bounds, lemma_outside_flag, popcount,
};
use crate::coordinates::{
    Coordinates, Point, all_coordinates, coord_index, coord_member, coord_member_upto, coords_wf,
    lemma_coord_index_distinct, lemma_coord_member_full, spec_group,
};
use crate::count_notes::position_map;
use crate::grid::{Notes, cell_index, lemma_progress_compose, notes_le, notes_wf};

verus! {

/// What the hidden-set narrowing leaves in one mask: a cell holding one of
/// the set's digits is narrowed to the set.
pub open spec fn narrowed_note(m: u16, candidate: u16) -> u16 {
    if m & candidate != 0 {
        m & candidate
    } else {
        m
    }
}

/// The two-digit mask of digit indices `a` and `b`.
pub open spec fn candidate_mask(a: int, b: int) -> u16 {
    (1u16 << b as u16) | (1u16 << a as u16)
}

/// One hidden-set narrowing over a whole group. The group's cells are
/// pairwise distinct, so the cell-by-cell pass leaves exactly this grid.
pub open spec fn clear_hidden_spec(n: Seq<u16>, cs: Seq<Point>, cand: u16) -> Seq<u16> {
    Seq::new(81, |i: int| if coord_member(cs, i) {
        narrowed_note(n[i], cand)
    } else {
        n[i]
    })
}

/// The partner scan for digit index `first`, over digit indices `lo..t` of
/// the position maps `vm`.
pub open spec fn hidden_seconds_upto(
    n: Seq<u16>,
    cs: Seq<Point>,
    vm: Seq<u16>,
    first: int,
    lo: int,
    t: int,
) -> Seq<u16>
    decreases t - lo,
{
    if t <= lo {
        n
    } else {
        let prev = hidden_seconds_upto(n, cs, vm, first, lo, t - 1);
        if vm[t - 1] == vm[first] {
            clear_hidden_spec(prev, cs, candidate_mask(first, t - 1))
        } else {
            prev
        }
    }
}

/// The scan over the first `f` candidate digit indices of the stale position
/// maps `vm`.
pub open spec fn hidden_firsts_upto(n: Seq<u16>, cs: Seq<Point>, vm: Seq<u16>, f: int) -> Seq<u16>
    decreases f,
{
    if f <= 0 {
        n
    } else {
        let prev = hidden_firsts_upto(n, cs, vm, f - 1);
        if popcount(vm[f - 1]) == 2 {
            hidden_seconds_upto(prev, cs, vm, f - 1, f, 9)
        } else {
            prev
        }
    }
}

/// One group's hidden-pair pass: position maps are computed once, then every
/// pair of digits with the same two-position map narrows its two cells.
pub open spec fn check_hidden_spec(n: Seq<u16>, cs: Seq<Point>) -> Seq<u16> {
    let vm = Seq::new(9, |v: int| position_map(n, cs, v + 1));
    hidden_firsts_upto(n, cs, vm, 8)
}

/// The hidden-pair passes over the first `g` of the 27 groups, in sweep
/// order.
pub open spec fn hidden_groups_upto(n: Seq<u16>, g: int) -> Seq<u16>
    decreases g,
{
    if g <= 0 {
        n
    } else {
        check_hidden_spec(hidden_groups_upto(n, g - 1), spec_group(g - 1))
    }
}

/// The whole hidden-pair sweep over all 27 groups.
pub open spec fn hidden_sets_spec(n: Seq<u16>) -> Seq<u16> {
    hidden_groups_upto(n, 27)
}

/// Run the hidden-pair narrowing over all 27 groups; the result says whether
/// any mask changed.
pub fn use_hidden_sets(notes: &mut Notes) -> (result: bool)
    requires
        old(notes).wf(),
    ensures
        final(notes).wf(),
        notes_le(final(notes)@, old(notes)@),
        result == (final(notes)@ != old(notes)@),
        final(notes)@ == hidden_sets_spec(old(notes)@),
{
    let ghost n0 = old(notes)@;
    let mut result = false;
    let mut index: usize = 0;
    while index < 9
        invariant
            index <= 9,
            notes.wf(),
            notes_wf(n0),
            notes_le(notes@, n0),
            result == (notes@ != n0),
            notes@ == hidden_groups_upto(n0, 3 * index as int),
        decreases 9 - index,
    {
        let groups = all_coordinates(index);
        let mut g: usize = 0;
        while g < 3
            invariant
                g <= 3,
                index < 9,
                notes.wf(),
                notes_wf(n0),
                notes_le(notes@, n0),
                result == (notes@ != n0),
                groups@.len() == 3,
                forall|j: int| 0 <= j < 3 ==> coords_wf(#[trigger] groups@[j]@),
                forall|j: int| 0 <= j < 3 ==> #[trigger] groups@[j]@ == spec_group(
                    3 * index as int + j,
                ),
                notes@ == hidden_groups_upto(n0, 3 * index as int + g as int),
            decreases 3 - g,
        {
            let ghost n_pre = notes@;
            let f = check_hidden_set(notes, &groups[g]);
            proof {
                lemma_progress_compose(n0, n_pre, notes@, result, f);
                assert(notes@ == hidden_groups_upto(n0, 3 * index as int + g as int + 1));
            }
            result = result || f;
            g = g + 1;
        }
        index = index + 1;
    }
    result
}

/// Look for two digits whose position maps in the group coincide on exactly
/// two cells, and narrow those cells to the pair.
fn check_hidden_set(notes: &mut Notes, cells: &Coordinates) -> (result: bool)
    requires
        old(notes).wf(),
        coords_wf(cells@),
    ensures
        final(notes).wf(),
        notes_le(final(notes)@, old(notes)@),
        result == (final(notes)@ != old(notes)@),
        final(notes)@ == check_hidden_spec(old(notes)@, cells@),
{
    let ghost n0 = old(notes)@;
    let ghost cs = cells@;
    let mut result = false;
    let values_map = crate::count_notes::count(notes, cells);
    let ghost vm = Seq::new(9, |v: int| position_map(n0, cs, v + 1));
    proof {
        assert(values_map@ =~= vm);
    }
    let mut first: usize = 0;
    while first < 8
        invariant
            first <= 8,
            notes.wf(),
            coords_wf(cs),
            cs == cells@,
            notes_wf(n0),
            notes_le(notes@, n0),
            result == (notes@ != n0),
            values_map@.len() == 9,
            values_map@ == vm,
            notes@ == hidden_firsts_upto(n0, cs, vm, first as int),
        decreases 8 - first,
    {
        if count_ones(values_map[first]) == 2 {
            let ghost n_f = notes@;
            let mut second: usize = first + 1;
            while second < 9
                invariant
                    first < 8,
                    first + 1 <= second <= 9,
                    notes.wf(),
                    coords_wf(cs),
                    cs == cells@,
                    notes_wf(n0),
                    notes_le(notes@, n0),
                    result == (notes@ != n0),
                    values_map@.len() == 9,
                    values_map@ == vm,
                    popcount(vm[first as int]) == 2,
                    n_f == hidden_firsts_upto(n0, cs, vm, first as int),
                    notes@ == hidden_seconds_upto(
                        n_f,
                        cs,
                        vm,
                        first as int,
                        first as int + 1,
                        second as int,
                    ),
                decreases 9 - second,
            {
                if values_map[second] == values_map[first] {
                    let ghost n_pre = notes@;
                    let f = clear_hidden_set(notes, cells, candidate(first, second));
                    proof {
                        lemma_progress_compose(n0, n_pre, notes@, result, f);
                    }
                    result = result || f;
                }
                proof {
                    assert(notes@ == hidden_seconds_upto(
                        n_f,
                        cs,
                        vm,
                        first as int,
                        first as int + 1,
                        second + 1,
                    ));
                }
                second = second + 1;
            }
            proof {
                assert(notes@ == hidden_firsts_upto(n0, cs, vm, first + 1));
            }
        } else {
            proof {
                assert(notes@ == hidden_firsts_upto(n0, cs, vm, first + 1));
            }
        }
        first = first + 1;
    }
    result
}

/// Narrow every cell of the group that holds one of the set's digits down to
/// the set itself.
fn clear_hidden_set(notes: &mut Notes, cells: &Coordinates, candidate: u16) -> (result: bool)
    requires
        old(notes).wf(),
        coords_wf(cells@),
    ensures
        final(notes).wf(),
        forall|i: int|
            0 <= i < 81 && !coord_member(cells@, i) ==> final(notes)@[i] == #[trigger] old(
                notes,
            )@[i],
        forall|k: int|
            0 <= k < 9 ==> final(notes)@[#[trigger] coord_index(cells@, k)] == narrowed_note(
                old(notes)@[coord_index(cells@, k)],
                candidate,
            ),
        notes_le(final(notes)@, old(notes)@),
        result == (final(notes)@ != old(notes)@),
        final(notes)@ == clear_hidden_spec(old(notes)@, cells@, candidate),
{
    let ghost n0 = old(notes)@;
    let ghost cs = cells@;
    let mut result = false;
    let mut k: usize = 0;
    while k < 9
        invariant
            k <= 9,
            notes.wf(),
            coords_wf(cs),
            cs == cells@,
            notes_wf(n0),
            forall|i: int|
                0 <= i < 81 && !coord_member_upto(cs, i, k as int) ==> notes@[i]
                    == #[trigger] n0[i],
            forall|j: int|
                0 <= j < k ==> notes@[#[trigger] coord_index(cs, j)] == narrowed_note(
                    n0[coord_index(cs, j)],
                    candidate,
                ),
            result ==> notes@ != n0,
            !result ==> notes@ == n0,
        decreases 9 - k,
    {
        proof {
            assert forall|j: int, k2: int|
                0 <= j < 9 && 0 <= k2 < 9 && j != k2 implies #[trigger] coord_index(cs, j)
                != #[trigger] coord_index(cs, k2) by {
                lemma_coord_index_distinct(cs, j, k2);
            }
            assert(!coord_member_upto(cs, coord_index(cs, k as int), k as int));
        }
        let (row, col) = cells[k];
        let ghost n_before = notes@;
        let note = notes.get(row, col);
        proof {
            assert(coord_index(cs, k as int) == cell_index(row as int, col as int));
            assert(note == n0[coord_index(cs, k as int)]);
        }
        let is_not_set = (note & candidate) != 0;
        if is_not_set {
            let is_not_candidate = (note | candidate) != candidate;
            proof {
                lemma_mask_bounds(note, candidate);
                lemma_outside_flag(note, candidate);
            }
            notes.set(row, col, note & candidate);
            proof {
                if note | candidate == candidate {
                    assert(note & candidate == note);
                    assert(notes@ =~= n_before);
                } else {
                    assert(note & candidate != note);
                    assert(notes@[coord_index(cs, k as int)] != n0[coord_index(cs, k as int)]);
                }
            }
            result = result || is_not_candidate;
        }
        proof {
            assert forall|i: int|
                0 <= i < 81 && !coord_member_upto(cs, i, k + 1) implies notes@[i]
                == #[trigger] n0[i] by {
                assert(!coord_member_upto(cs, i, k as int));
                assert(coord_index(cs, k as int) != i);
            }
        }
        k = k + 1;
    }
    proof {
        assert forall|i: int| 0 <= i < 81 && !coord_member(cs, i) implies notes@[i]
            == #[trigger] n0[i] by {
            lemma_coord_member_full(cs, i);
        }
        assert forall|i: int| 0 <= i < 81 implies #[trigger] crate::bits::mask_le(
            notes@[i],
            n0[i],
        ) by {
            if coord_member(cs, i) {
                let j = choose|j: int| 0 <= j < 9 && #[trigger] coord_index(cs, j) == i;
                assert(notes@[i] == narrowed_note(n0[i], candidate));
                assert forall|d: int| #[trigger] has_digit(notes@[i], d) implies has_digit(
                    n0[i],
                    d,
                ) by {
                    if 1 <= d <= 9 && n0[i] & candidate != 0 {
                        lemma_and_bit(n0[i], candidate, (d - 1) as u16);
                    }
                }
            } else {
                lemma_coord_member_full(cs, i);
            }
        }
        assert forall|i: int|
            0 <= i < 81 implies notes@[i] == #[trigger] clear_hidden_spec(n0, cs, candidate)[i] by {
            if coord_member(cs, i) {
                let j = choose|j: int| 0 <= j < 9 && #[trigger] coord_index(cs, j) == i;
                assert(notes@[i] == narrowed_note(n0[i], candidate));
            } else {
                lemma_coord_member_full(cs, i);
            }
        }
        assert(notes@ =~= clear_hidden_spec(n0, cs, candidate));
    }
    result
}

/// The two-digit mask holding digits `first + 1` and `second + 1`.
pub fn candidate(first: usize, second: usize) -> (r: u16)
    requires
        first < 16,
        second < 16,
    ensures
        r == (1u16 << second as u16) | (1u16 << first as u16),
{
    (1u16 << (second as u16)) | (1u16 << (first as u16))
}

} // verus!
