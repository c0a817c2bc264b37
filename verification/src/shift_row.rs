//! Swiping a row of blocks towards its first cell, with a fast path for rows
//! of four cells.
use crate::game::twenty_forty_eight::board::fast_swipe::{
    fast_swipe_word,
    lemma_trace_len,
    swipe_changed,
    swipe_is_safe,
    swipe_left_4_fast,
    swipe_left_scored,
    swipe_trace,
    swiped_row,
    unpack_row,
};
use vstd::prelude::*;

verus! {

/// A row of `SIZE` cells: 0 when empty, else the exponent of the block there.
#[derive(Copy, Clone, Debug, Hash, PartialEq, Eq)]
pub struct Row<const SIZE: usize>(pub [u8; SIZE]);

/// What a swipe did to a row.
#[derive(Copy, Clone, Debug, PartialEq, Eq)]
pub enum SwipeResult {
    UnChanged,
    Changed { score: u32 },
}

impl SwipeResult {
    /// The score of the merges: 0 when nothing changed.
    pub open spec fn score(self) -> int {
        match self {
            SwipeResult::UnChanged => 0,
            SwipeResult::Changed { score } => score as int,
        }
    }
}

proof fn lemma_pack_row(a: u8, b: u8, c: u8, d: u8)
    by (bit_vector)
    ensures
        ({
            let x = (a as u32) | (b as u32) << 8 | (c as u32) << 16 | (d as u32) << 24;
            &&& (x & 0xFF) as u8 == a
            &&& ((x >> 8) & 0xFF) as u8 == b
            &&& ((x >> 16) & 0xFF) as u8 == c
            &&& ((x >> 24) & 0xFF) as u8 == d
        }),
{
}

proof fn lemma_unpack_row_injective(x: u32, y: u32)
    by (bit_vector)
    requires
        (x & 0xFF) as u8 == (y & 0xFF) as u8,
        ((x >> 8) & 0xFF) as u8 == ((y >> 8) & 0xFF) as u8,
        ((x >> 16) & 0xFF) as u8 == ((y >> 16) & 0xFF) as u8,
        ((x >> 24) & 0xFF) as u8 == ((y >> 24) & 0xFF) as u8,
    ensures
        x == y,
{
}

impl<const SIZE: usize> Row<SIZE> {
    /// The swipe of four cells packed in a `u32`, first cell in the low byte;
    /// see [`swipe_left_4_fast`].
    fn swipe_4_fast(bytes: u32) -> (swiped: u32)
        ensures
            swiped == fast_swipe_word(unpack_row(bytes)),
            !swipe_trace(unpack_row(bytes)).wrapped ==> unpack_row(swiped) == swiped_row(
                unpack_row(bytes),
            ),
    {
        swipe_left_4_fast(bytes)
    }

    /// Swipes the row towards its first cell. A row of four cells takes the
    /// fast path ([`fast_swipe_word`]), which reports only whether the row
    /// changed; other rows also report the score of their merges.
    pub fn swipe_left(&mut self) -> (result: SwipeResult)
        requires
            SIZE != 4 ==> swipe_is_safe(old(self).0@),
        ensures
            SIZE == 4 ==> ((result is UnChanged) <==> final(self).0@ == old(self).0@),
            SIZE == 4 ==> result.score() == 0,
            SIZE == 4 ==> final(self).0@ == unpack_row(fast_swipe_word(old(self).0@) as u32),
            SIZE == 4 && !swipe_trace(old(self).0@).wrapped ==> final(self).0@ == swiped_row(
                old(self).0@,
            ),
            SIZE != 4 ==> final(self).0@ == swiped_row(old(self).0@),
            SIZE != 4 ==> ((result is UnChanged) <==> !swipe_changed(old(self).0@)),
            SIZE != 4 ==> result.score() == swipe_trace(old(self).0@).score,
    {
        let ghost row = self.0@;
        if SIZE == 4 {
            let a = self.0[0];
            let b = self.0[1];
            let c = self.0[2];
            let d = self.0[3];
            let bytes = (a as u32) | (b as u32) << 8 | (c as u32) << 16 | (d as u32) << 24;
            proof {
                lemma_pack_row(a, b, c, d);
                assert(unpack_row(bytes) =~= row);
            }
            let swiped_bytes = Self::swipe_4_fast(bytes);
            self.0[0] = (swiped_bytes & 0xFF) as u8;
            self.0[1] = ((swiped_bytes >> 8) & 0xFF) as u8;
            self.0[2] = ((swiped_bytes >> 16) & 0xFF) as u8;
            self.0[3] = ((swiped_bytes >> 24) & 0xFF) as u8;
            proof {
                assert(self.0@ =~= unpack_row(swiped_bytes));
                if self.0@ == row {
                    assert(unpack_row(swiped_bytes) == unpack_row(bytes));
                    assert(unpack_row(swiped_bytes)[0] == unpack_row(bytes)[0]);
                    assert(unpack_row(swiped_bytes)[1] == unpack_row(bytes)[1]);
                    assert(unpack_row(swiped_bytes)[2] == unpack_row(bytes)[2]);
                    assert(unpack_row(swiped_bytes)[3] == unpack_row(bytes)[3]);
                    lemma_unpack_row_injective(swiped_bytes, bytes);
                }
            }
            return if bytes == swiped_bytes {
                SwipeResult::UnChanged
            } else {
                SwipeResult::Changed { score: 0 }
            };
        }
        let mut cells: [u8; SIZE] = self.0;
        let (changed, score) = swipe_left_scored(&mut cells);
        proof {
            lemma_trace_len(row);
        }
        self.0 = cells;
        if changed {
            SwipeResult::Changed { score }
        } else {
            SwipeResult::UnChanged
        }
    }
}

impl<const SIZE: usize> From<[u8; SIZE]> for Row<SIZE> {
    /// The row with the given cells.
    fn from(value: [u8; SIZE]) -> (r: Self) {
        Row(value)
    }
}

impl<const SIZE: usize> vstd::std_specs::convert::FromSpecImpl<[u8; SIZE]> for Row<SIZE> {
    open spec fn obeys_from_spec() -> bool {
        true
    }

    open spec fn from_spec(v: [u8; SIZE]) -> Self {
        Row(v)
    }
}

impl<const SIZE: usize> From<Row<SIZE>> for [u8; SIZE] {
    /// The cells of the row.
    fn from(value: Row<SIZE>) -> (r: Self) {
        value.0
    }
}

impl<const SIZE: usize> vstd::std_specs::convert::FromSpecImpl<Row<SIZE>> for [u8; SIZE] {
    open spec fn obeys_from_spec() -> bool {
        true
    }

    open spec fn from_spec(v: Row<SIZE>) -> Self {
        v.0
    }
}

impl<const SIZE: usize> Row<SIZE> {
    /// The cells of the row.
    pub fn into_cells(self) -> (cells: [u8; SIZE])
        ensures
            cells == self.0,
    {
        self.0
    }
}

/// Swipes a row of cells towards its first cell, through [`Row::swipe_left`].
/// Returns whether the row changed.
pub fn swipe_left<const SIZE: usize>(cells: &mut [u8; SIZE]) -> (changed: bool)
    requires
        SIZE != 4 ==> swipe_is_safe(old(cells)@),
    ensures
        SIZE == 4 ==> (changed <==> final(cells)@ != old(cells)@),
        SIZE == 4 ==> final(cells)@ == unpack_row(fast_swipe_word(old(cells)@) as u32),
        SIZE == 4 && !swipe_trace(old(cells)@).wrapped ==> final(cells)@ == swiped_row(old(cells)@),
        SIZE != 4 ==> final(cells)@ == swiped_row(old(cells)@),
        SIZE != 4 ==> changed == swipe_changed(old(cells)@),
{
    let mut row = Row::from(*cells);
    let result = row.swipe_left();
    *cells = row.into_cells();
    match result {
        SwipeResult::UnChanged => false,
        SwipeResult::Changed { .. } => true,
    }
}

} // verus!
