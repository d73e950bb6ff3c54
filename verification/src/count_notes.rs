//! Position maps: for each digit, the bitmask of positions within a group
//! where that digit is still a candidate.

use vstd::prelude::*;
use crate::bits::{bit_set, has_digit, lemma_mask_ext, lemma_set_bit, lemma_test_bit, lemma_zero_bit};
use crate::coordinates::{Coordinates, coords_wf};
use crate::grid::{Notes, cell_index};

verus! {

/// One nine-bit position mask per digit.
pub type Counters = Vec<u16>;

/// The mask of the group cell at position `k`.
pub open spec fn note_at(n: Seq<u16>, cs: Seq<(usize, usize)>, k: int) -> u16 {
    n[cell_index(cs[k].0 as int, cs[k].1 as int)]
}

/// The positions (0..=8) among the group's first `k` cells where digit `d`
/// is still a candidate, as a position mask.
pub open spec fn position_map_upto(n: Seq<u16>, cs: Seq<(usize, usize)>, d: int, k: int) -> u16
    decreases k,
{
    if k <= 0 {
        0u16
    } else {
        let prev = position_map_upto(n, cs, d, k - 1);
        if has_digit(note_at(n, cs, k - 1), d) {
            prev | (1u16 << ((k - 1) as u16))
        } else {
            prev
        }
    }
}

/// The full position mask of digit `d` over the group.
pub open spec fn position_map(n: Seq<u16>, cs: Seq<(usize, usize)>, d: int) -> u16 {
    position_map_upto(n, cs, d, 9)
}

pub proof fn lemma_position_map_bits(n: Seq<u16>, cs: Seq<(usize, usize)>, d: int, k: int, b: u16)
    requires
        0 <= k <= 9,
    ensures
        bit_set(position_map_upto(n, cs, d, k), b) <==> (b < k && has_digit(
            note_at(n, cs, b as int),
            d,
        )),
        position_map_upto(n, cs, d, k) < 512,
    decreases k,
{
    if k > 0 {
        lemma_position_map_bits(n, cs, d, k - 1, b);
        if has_digit(note_at(n, cs, k - 1), d) {
            lemma_set_bit(position_map_upto(n, cs, d, k - 1), (k - 1) as u16, b);
        }
    } else {
        lemma_zero_bit(b);
    }
}

/// Digit `position` (1..=9) is still a candidate in `note`.
pub fn is_set(note: u16, position: usize) -> (r: bool)
    requires
        1 <= position <= 9,
    ensures
        r == has_digit(note, position as int),
{
    let mask: u16 = 1u16 << ((position - 1) as u16);
    proof {
        lemma_test_bit(note, (position - 1) as u16);
    }
    (note & mask) != 0
}

/// Set position bit `bit` (0..=8) in a position mask.
pub fn set_note(note: &mut u16, bit: u8)
    requires
        bit < 9,
    ensures
        forall|b2: u16|
            #[trigger] bit_set(*final(note), b2) <==> (bit_set(*old(note), b2) || b2 == bit),
        *old(note) < 512 ==> *final(note) < 512,
{
    let ghost o: u16 = *note;
    *note = *note | (1u16 << (bit as u16));
    proof {
        assert forall|b2: u16|
            #[trigger] bit_set(*note, b2) <==> (bit_set(o, b2) || b2 == bit) by {
            lemma_set_bit(o, bit as u16, b2);
        }
        lemma_set_bit(o, bit as u16, 0);
    }
}

/// For each digit 1..=9, collect the positions (0..=8) within the group where
/// it is still a candidate, as a nine-bit position mask.
pub fn count(notes: &Notes, cells: &Coordinates) -> (counters: Counters)
    requires
        notes.wf(),
        coords_wf(cells@),
    ensures
        counters@.len() == 9,
        forall|v: int| 0 <= v < 9 ==> #[trigger] counters@[v] < 512,
        forall|v: int, i: int|
            #![trigger counters@[v], note_at(notes@, cells@, i)]
            0 <= v < 9 && 0 <= i < 9 ==> (bit_set(counters@[v], i as u16) <==> has_digit(
                note_at(notes@, cells@, i),
                v + 1,
            )),
        forall|v: int| 0 <= v < 9 ==> #[trigger] counters@[v] == position_map(notes@, cells@, v + 1),
{
    let mut counters: Counters = vec![0u16; 9];
    proof {
        assert forall|v: int, b: u16| 0 <= v < 9 implies !(#[trigger] bit_set(counters@[v], b)) by {
            crate::bits::lemma_zero_bit(b);
        }
    }
    let mut index: usize = 0;
    while index < 9
        invariant
            index <= 9,
            notes.wf(),
            coords_wf(cells@),
            counters@.len() == 9,
            forall|v: int| 0 <= v < 9 ==> #[trigger] counters@[v] < 512,
            forall|v: int, i: int|
                #![trigger counters@[v], note_at(notes@, cells@, i)]
                0 <= v < 9 && 0 <= i < index ==> (bit_set(counters@[v], i as u16) <==> has_digit(
                    note_at(notes@, cells@, i),
                    v + 1,
                )),
            forall|v: int, b: u16|
                0 <= v < 9 && index <= b ==> !(#[trigger] bit_set(counters@[v], b)),
        decreases 9 - index,
    {
        let (row, col) = cells[index];
        let note = notes.get(row, col);
        let mut value: usize = 1;
        while value <= 9
            invariant
                1 <= value <= 10,
                index < 9,
                notes.wf(),
                coords_wf(cells@),
                counters@.len() == 9,
                note == note_at(notes@, cells@, index as int),
                forall|v: int| 0 <= v < 9 ==> #[trigger] counters@[v] < 512,
                forall|v: int, i: int|
                    #![trigger counters@[v], note_at(notes@, cells@, i)]
                    0 <= v < 9 && 0 <= i < index ==> (bit_set(counters@[v], i as u16)
                        <==> has_digit(note_at(notes@, cells@, i), v + 1)),
                forall|v: int|
                    0 <= v < value - 1 ==> (bit_set(#[trigger] counters@[v], index as u16)
                        <==> has_digit(note, v + 1)),
                forall|v: int, b: u16|
                    0 <= v < 9 && index < b ==> !(#[trigger] bit_set(counters@[v], b)),
                forall|v: int|
                    value - 1 <= v < 9 ==> !bit_set(#[trigger] counters@[v], index as u16),
            decreases 10 - value,
        {
            if is_set(note, value) {
                let mut cur: u16 = counters[value - 1];
                set_note(&mut cur, index as u8);
                counters.set(value - 1, cur);
            }
            value = value + 1;
        }
        index = index + 1;
    }
    proof {
        assert forall|v: int|
            0 <= v < 9 implies #[trigger] counters@[v] == position_map(notes@, cells@, v + 1) by {
            let pm = position_map(notes@, cells@, v + 1);
            lemma_position_map_bits(notes@, cells@, v + 1, 9, 0);
            assert forall|d2: int| #[trigger] has_digit(counters@[v], d2) implies has_digit(
                pm,
                d2,
            ) by {
                lemma_position_map_bits(notes@, cells@, v + 1, 9, (d2 - 1) as u16);
                assert(has_digit(note_at(notes@, cells@, d2 - 1), v + 1));
            }
            assert forall|d2: int| #[trigger] has_digit(pm, d2) implies has_digit(
                counters@[v],
                d2,
            ) by {
                lemma_position_map_bits(notes@, cells@, v + 1, 9, (d2 - 1) as u16);
            }
            lemma_mask_ext(counters@[v], pm);
        }
    }
    counters
}

} // verus!
