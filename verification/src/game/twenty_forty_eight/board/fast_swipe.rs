//! Swiping one row of the board towards its first cell.
//!
//! A cell holds 0 when it is empty, and the exponent `t` of a tile worth `2^t`
//! otherwise.
use vstd::arithmetic::power::pow;
use vstd::arithmetic::power2::pow2;
use vstd::prelude::*;

verus! {

/// Exponent of the tile that two equal tiles merge into. Exponents are 8-bit and
/// wrap: two tiles of exponent 255 merge into an empty cell.
pub open spec fn merged_tile(tile: u8) -> u8 {
    if tile == 255 {
        0
    } else {
        (tile + 1) as u8
    }
}

/// What a left swipe has done after reading a prefix of a row.
pub struct SwipeTrace {
    /// Cells whose final content is fixed, from the left.
    pub placed: Seq<u8>,
    /// The last tile read, which the next tile may still merge with (0 when none).
    pub pending: u8,
    /// Some tile moved to another cell, or a merge left a tile.
    pub changed: bool,
    /// Sum of `2^t` over the tiles `t` that merges created.
    pub score: int,
    /// Every merge left an empty cell or a tile below 32.
    pub small_merges: bool,
    /// Some merge of two 255 tiles left an empty cell.
    pub wrapped: bool,
}

/// The left swipe read as a left fold over the row: empty cells are skipped, a
/// tile merges with the tile before it when they are equal and that tile has
/// not merged yet, and otherwise it moves next to the cells placed so far.
pub open spec fn swipe_trace(row: Seq<u8>) -> SwipeTrace
    decreases row.len(),
{
    if row.len() == 0 {
        SwipeTrace {
            placed: Seq::empty(),
            pending: 0,
            changed: false,
            score: 0,
            small_merges: true,
            wrapped: false,
        }
    } else {
        let t = swipe_trace(row.drop_last());
        let tile = row.last();
        let at = row.len() - 1;
        if tile == 0 {
            t
        } else if t.pending == tile {
            let m = merged_tile(tile);
            SwipeTrace {
                placed: t.placed.push(m),
                pending: 0,
                changed: t.changed || m != 0,
                score: if m != 0 { t.score + pow2(m as nat) } else { t.score },
                small_merges: t.small_merges && (m == 0 || m < 32),
                wrapped: t.wrapped || m == 0,
            }
        } else {
            let placed = if t.pending == 0 { t.placed } else { t.placed.push(t.pending) };
            SwipeTrace {
                placed,
                pending: tile,
                changed: t.changed || placed.len() != at,
                score: t.score,
                small_merges: t.small_merges,
                wrapped: t.wrapped,
            }
        }
    }
}

/// The cells that a swipe fills, from the left: the placed cells and the pending tile.
pub open spec fn trace_kept(t: SwipeTrace) -> Seq<u8> {
    if t.pending == 0 {
        t.placed
    } else {
        t.placed.push(t.pending)
    }
}

/// `n` empty cells.
pub open spec fn empty_cells(n: int) -> Seq<u8> {
    Seq::new(n as nat, |i: int| 0u8)
}

/// The row after a swipe towards its first cell.
pub open spec fn swiped_row(row: Seq<u8>) -> Seq<u8> {
    let kept = trace_kept(swipe_trace(row));
    kept + empty_cells(row.len() - kept.len())
}

/// Whether a swipe of the row reports a change.
pub open spec fn swipe_changed(row: Seq<u8>) -> bool {
    swipe_trace(row).changed
}

/// The row can be swiped without overflow: every merge leaves an empty cell or a
/// tile below 32, and the merge score fits in a `u32`.
pub open spec fn swipe_is_safe(row: Seq<u8>) -> bool {
    &&& swipe_trace(row).small_merges
    &&& swipe_trace(row).score <= u32::MAX
}

/// No merge of two 255 tiles happens in the swipe.
pub open spec fn swipe_keeps_tiles(row: Seq<u8>) -> bool {
    !swipe_trace(row).wrapped
}

pub(crate) proof fn lemma_trace_len(row: Seq<u8>)
    ensures
        trace_kept(swipe_trace(row)).len() <= row.len(),
        swipe_trace(row).score >= 0,
        !swipe_trace(row).changed ==> swipe_trace(row).score == 0,
    decreases row.len(),
{
    if row.len() > 0 {
        lemma_trace_len(row.drop_last());
    }
}

/// A swipe keeps the length of the row.
pub proof fn lemma_swiped_row_len(row: Seq<u8>)
    ensures
        swiped_row(row).len() == row.len(),
{
    lemma_trace_len(row);
}

pub(crate) proof fn lemma_trace_prefix(row: Seq<u8>, i: int)
    requires
        0 <= i <= row.len(),
    ensures
        swipe_trace(row.take(i)).score <= swipe_trace(row).score,
        swipe_trace(row).small_merges ==> swipe_trace(row.take(i)).small_merges,
    decreases row.len() - i,
{
    if i < row.len() {
        lemma_trace_prefix(row, i + 1);
        let p = row.take(i + 1);
        assert(p.drop_last() =~= row.take(i));
        lemma_trace_len(row.take(i));
    } else {
        assert(row.take(i) =~= row);
    }
}

/// A swipe reports a change exactly when it changes the row, unless two 255
/// tiles merge into an empty cell.
pub proof fn lemma_swipe_changed_iff_row_changed(row: Seq<u8>)
    requires
        swipe_keeps_tiles(row),
    ensures
        swipe_changed(row) <==> swiped_row(row) != row,
    decreases row.len(),
{
    if row.len() == 0 {
        assert(swiped_row(row) =~= row);
    } else {
        let s = row.drop_last();
        let x = row.last();
        let n = s.len() as int;
        let t = swipe_trace(s);
        lemma_trace_len(s);
        lemma_swipe_changed_iff_row_changed(s);
        assert(row =~= s.push(x));
        let o = trace_kept(t);
        if x == 0 {
            assert(swiped_row(row) =~= swiped_row(s).push(0));
            if swiped_row(s) != s {
                assert(!(swiped_row(s) =~= s));
                let k = choose|k: int| 0 <= k < n && swiped_row(s)[k] != s[k];
                assert(swiped_row(row)[k] != row[k]);
            }
        } else if t.pending == x {
            assert(swiped_row(row)[n] == 0);
        } else {
            if o.len() == n {
                assert(swiped_row(row) =~= o.push(x));
                assert(swiped_row(s) =~= o);
                if o != s {
                    assert(!(o =~= s));
                    let k = choose|k: int| 0 <= k < n && o[k] != s[k];
                    assert(swiped_row(row)[k] != row[k]);
                }
            } else {
                assert(swiped_row(row)[n] == 0);
            }
        }
    }
}

/// Number of tiles (non-empty cells) in a row.
pub open spec fn tiles_in(row: Seq<u8>) -> nat
    decreases row.len(),
{
    if row.len() == 0 {
        0
    } else {
        tiles_in(row.drop_last()) + if row.last() != 0 { 1nat } else { 0nat }
    }
}

/// A row holds at most as many tiles as cells, and fewer where a cell is empty.
proof fn lemma_tiles_in(row: Seq<u8>)
    ensures
        tiles_in(row) <= row.len(),
        (exists|i: int| 0 <= i < row.len() && row[i] == 0) ==> tiles_in(row) < row.len(),
    decreases row.len(),
{
    if row.len() > 0 {
        let s = row.drop_last();
        lemma_tiles_in(s);
        if exists|i: int| 0 <= i < row.len() && row[i] == 0 {
            let i = choose|i: int| 0 <= i < row.len() && row[i] == 0;
            if i < s.len() {
                assert(s[i] == 0);
            }
        }
    }
}

/// A swipe fills at most as many cells as the row has tiles.
proof fn lemma_kept_le_tiles(row: Seq<u8>)
    ensures
        trace_kept(swipe_trace(row)).len() <= tiles_in(row),
    decreases row.len(),
{
    if row.len() > 0 {
        lemma_kept_le_tiles(row.drop_last());
    }
}

/// A change, or a merge of two 255 tiles, in a prefix of the swipe stays in
/// the whole swipe.
proof fn lemma_trace_flags_prefix(row: Seq<u8>, k: int)
    requires
        0 <= k <= row.len(),
    ensures
        swipe_trace(row.take(k)).changed ==> swipe_trace(row).changed,
        swipe_trace(row.take(k)).wrapped ==> swipe_trace(row).wrapped,
    decreases row.len() - k,
{
    if k < row.len() {
        lemma_trace_flags_prefix(row, k + 1);
        assert(row.take(k + 1).drop_last() =~= row.take(k));
    } else {
        assert(row.take(k) =~= row);
    }
}

/// A tile after an empty cell moves: the swipe reports a change (where no two
/// 255 tiles merge).
pub proof fn lemma_gap_before_tile_changes(row: Seq<u8>, i: int, j: int)
    requires
        0 <= i < j < row.len(),
        row[i] == 0,
        row[j] != 0,
        swipe_keeps_tiles(row),
    ensures
        swipe_changed(row),
{
    let p = row.take(j + 1);
    let s = row.take(j);
    assert(p.drop_last() =~= s);
    assert(s[i] == 0);
    lemma_tiles_in(s);
    lemma_kept_le_tiles(s);
    lemma_trace_flags_prefix(row, j + 1);
}

/// Two equal tiles next to each other make the swipe report a change (where
/// no two 255 tiles merge).
pub proof fn lemma_equal_neighbours_change(row: Seq<u8>, i: int)
    requires
        0 <= i,
        i + 1 < row.len(),
        row[i] != 0,
        row[i] == row[i + 1],
        swipe_keeps_tiles(row),
    ensures
        swipe_changed(row),
{
    let p0 = row.take(i);
    let p1 = row.take(i + 1);
    let p2 = row.take(i + 2);
    assert(p1.drop_last() =~= p0);
    assert(p2.drop_last() =~= p1);
    lemma_trace_flags_prefix(row, i + 1);
    lemma_trace_flags_prefix(row, i + 2);
}

/// A full row without two equal neighbouring tiles does not change.
pub proof fn lemma_full_distinct_unchanged(row: Seq<u8>)
    requires
        forall|i: int| 0 <= i < row.len() ==> row[i] != 0,
        forall|i: int, j: int|
            #![trigger row[i], row[j]]
            0 <= i && j == i + 1 && j < row.len() ==> row[i] != row[j],
    ensures
        !swipe_changed(row),
        row.len() > 0 ==> swipe_trace(row).placed == row.drop_last(),
        row.len() > 0 ==> swipe_trace(row).pending == row.last(),
    decreases row.len(),
{
    if row.len() > 0 {
        let s = row.drop_last();
        lemma_full_distinct_unchanged(s);
        if s.len() > 0 {
            assert(s.last() == row[s.len() - 1]);
            assert(s.drop_last().push(s.last()) =~= s);
        }
    }
}

/// The four cells of a row packed in a `u32`, first cell in the low byte.
pub open spec fn unpack_row(bytes: u32) -> Seq<u8> {
    seq![
        (bytes & 0xFF) as u8,
        ((bytes >> 8) & 0xFF) as u8,
        ((bytes >> 16) & 0xFF) as u8,
        ((bytes >> 24) & 0xFF) as u8,
    ]
}

/// Four cells after sliding their tiles over the empty cells towards the first.
pub open spec fn compress_four(a: u8, b: u8, c: u8, d: u8) -> (u8, u8, u8, u8) {
    let (a, b, c, d) = if c == 0 { (a, b, d, 0u8) } else { (a, b, c, d) };
    let (a, b, c, d) = if b == 0 { (a, c, d, 0u8) } else { (a, b, c, d) };
    if a == 0 { (b, c, d, 0u8) } else { (a, b, c, d) }
}

/// Four slid cells after merging the first pair, the second and the third when
/// they are equal.
spec fn merge_four(a: u8, b: u8, c: u8, d: u8) -> Seq<u8> {
    if a == 0 {
        seq![a, b, c, d]
    } else {
        let (a, b, c, d) = if a == b { (merged_tile(a), c, d, 0u8) } else { (a, b, c, d) };
        if b == 0 {
            seq![a, b, c, d]
        } else {
            let (a, b, c, d) = if b == c { (a, merged_tile(b), d, 0u8) } else { (a, b, c, d) };
            if c == 0 {
                seq![a, b, c, d]
            } else {
                let (a, b, c, d) = if c == d { (a, b, merged_tile(c), 0u8) } else { (a, b, c, d) };
                seq![a, b, c, d]
            }
        }
    }
}

/// Whether merging four slid cells merges two 255 tiles.
spec fn merge_four_wraps(a: u8, b: u8, c: u8, d: u8) -> bool {
    if a == 0 {
        false
    } else {
        let w1 = a == b && a == 255;
        let (a, b, c, d) = if a == b { (merged_tile(a), c, d, 0u8) } else { (a, b, c, d) };
        if b == 0 {
            w1
        } else {
            let w2 = b == c && b == 255;
            let (a, b, c, d) = if b == c { (a, merged_tile(b), d, 0u8) } else { (a, b, c, d) };
            if c == 0 {
                w1 || w2
            } else {
                w1 || w2 || (c == d && c == 255)
            }
        }
    }
}

/// The swipe of four cells, step by step.
spec fn swipe_four(a: u8, b: u8, c: u8, d: u8) -> Seq<u8> {
    let (a, b, c, d) = compress_four(a, b, c, d);
    merge_four(a, b, c, d)
}

/// Whether the step-by-step swipe of four cells merges two 255 tiles.
spec fn swipe_four_wraps(a: u8, b: u8, c: u8, d: u8) -> bool {
    let (a, b, c, d) = compress_four(a, b, c, d);
    merge_four_wraps(a, b, c, d)
}

/// Four cells packed in a word, the first cell in the low byte.
pub open spec fn pack_four(a: u8, b: u8, c: u8, d: u8) -> int {
    a + 256 * b + 65536 * c + 16777216 * d
}

/// Cell `k` (0 to 3) of the packed word `w`.
pub open spec fn word_cell(w: int, k: int) -> int {
    if k == 0 {
        w % 256
    } else if k == 1 {
        (w / 256) % 256
    } else if k == 2 {
        (w / 65536) % 256
    } else {
        (w / 16777216) % 256
    }
}

/// The packed word `w` after the cells `k` and `k + 1` (`k` from 0 to 2),
/// which hold the same tile, merge: cell `k` is dropped, the cells after it
/// move one cell towards the first, and one is added to cell `k` as a number.
/// Where the tile is 255 the addition carries into cell `k + 1`.
pub open spec fn merge_at(w: int, k: int) -> int {
    if k == 0 {
        w / 256 + 1
    } else if k == 1 {
        w % 256 + (w / 65536) * 256 + 256
    } else {
        w % 65536 + (w / 16777216) * 65536 + 65536
    }
}

/// The merges of the four-cell fast path on the packed word `w` of slid
/// cells: the first pair, then the second, then the third, each where its
/// cells are equal, stopping at the first empty cell. The cells are read from
/// the word as it stands after the merges before, carries included.
pub open spec fn merge_word(w: int) -> int {
    if word_cell(w, 0) == 0 {
        w
    } else {
        let w1 = if word_cell(w, 0) == word_cell(w, 1) {
            merge_at(w, 0)
        } else {
            w
        };
        if word_cell(w1, 1) == 0 {
            w1
        } else {
            let w2 = if word_cell(w1, 1) == word_cell(w1, 2) {
                merge_at(w1, 1)
            } else {
                w1
            };
            if word_cell(w2, 2) == 0 {
                w2
            } else if word_cell(w2, 2) == word_cell(w2, 3) {
                merge_at(w2, 2)
            } else {
                w2
            }
        }
    }
}

/// The word that the four-cell fast path gives for `row`: its cells slid
/// towards the first, packed, then merged as [`merge_word`] says.
pub open spec fn fast_swipe_word(row: Seq<u8>) -> int {
    let (a, b, c, d) = compress_four(row[0], row[1], row[2], row[3]);
    merge_word(pack_four(a, b, c, d))
}

proof fn lemma_word_arith(x: u32)
    by (bit_vector)
    ensures
        (x & 0xFF == 0) == (x % 256 == 0),
        (x & 0xFF00 == 0) == ((x / 256) % 256 == 0),
        (x & 0xFF0000 == 0) == ((x / 65536) % 256 == 0),
        ((x ^ (x >> 8)) & 0xFF == 0) == (x % 256 == (x / 256) % 256),
        ((x ^ (x >> 8)) & 0xFF00 == 0) == ((x / 256) % 256 == (x / 65536) % 256),
        ((x ^ (x >> 8)) & 0xFF0000 == 0) == ((x / 65536) % 256 == (x / 16777216) % 256),
        x >> 8 == x / 256,
        (x >> 8) & !0xFFu32 | (x & 0xFF) == x % 256 + (x / 65536) * 256,
        (x >> 8) & !0xFFFFu32 | (x & 0xFFFF) == x % 65536 + (x / 16777216) * 65536,
        x == (x & 0xFF) + 256 * ((x >> 8) & 0xFF) + 65536 * ((x >> 16) & 0xFF) + 16777216 * ((x
            >> 24) & 0xFF),
{
}

proof fn lemma_swipe_four(a: u8, b: u8, c: u8, d: u8)
    ensures
        swiped_row(seq![a, b, c, d]) == swipe_four(a, b, c, d),
        swipe_trace(seq![a, b, c, d]).wrapped == swipe_four_wraps(a, b, c, d),
{
    reveal_with_fuel(swipe_trace, 5);
    let row = seq![a, b, c, d];
    assert(row.drop_last() =~= seq![a, b, c]);
    assert(seq![a, b, c].drop_last() =~= seq![a, b]);
    assert(seq![a, b].drop_last() =~= seq![a]);
    assert(seq![a].drop_last() =~= Seq::<u8>::empty());
    assert(swiped_row(row) =~= swipe_four(a, b, c, d));
}

proof fn lemma_bytes(x: u32)
    by (bit_vector)
    ensures
        (x & 0xFF == 0) == ((x & 0xFF) as u8 == 0),
        (x & 0xFF00 == 0) == (((x >> 8) & 0xFF) as u8 == 0),
        (x & 0xFF0000 == 0) == (((x >> 16) & 0xFF) as u8 == 0),
        ((x ^ (x >> 8)) & 0xFF == 0) == ((x & 0xFF) as u8 == ((x >> 8) & 0xFF) as u8),
        ((x ^ (x >> 8)) & 0xFF00 == 0) == (((x >> 8) & 0xFF) as u8 == ((x >> 16) & 0xFF) as u8),
        ((x ^ (x >> 8)) & 0xFF0000 == 0) == (((x >> 16) & 0xFF) as u8 == ((x >> 24) & 0xFF) as u8),
        ((x & 0xFF) as u8) as u32 == x & 0xFF,
        (((x >> 8) & 0xFF) as u8) as u32 == (x >> 8) & 0xFF,
        (((x >> 16) & 0xFF) as u8) as u32 == (x >> 16) & 0xFF,
        (((x >> 24) & 0xFF) as u8) as u32 == (x >> 24) & 0xFF,
{
}

proof fn lemma_slide_third(x: u32)
    by (bit_vector)
    ensures
        ({
            let y = (x >> 8) & !0xFFFFu32 | x & 0xFFFF;
            &&& y & 0xFF == x & 0xFF
            &&& (y >> 8) & 0xFF == (x >> 8) & 0xFF
            &&& (y >> 16) & 0xFF == (x >> 24) & 0xFF
            &&& (y >> 24) & 0xFF == 0
        }),
{
}

proof fn lemma_slide_second(x: u32)
    by (bit_vector)
    ensures
        ({
            let y = (x >> 8) & !0xFFu32 | x & 0xFF;
            &&& y & 0xFF == x & 0xFF
            &&& (y >> 8) & 0xFF == (x >> 16) & 0xFF
            &&& (y >> 16) & 0xFF == (x >> 24) & 0xFF
            &&& (y >> 24) & 0xFF == 0
        }),
{
}

proof fn lemma_slide_first(x: u32)
    by (bit_vector)
    ensures
        ({
            let y = x >> 8;
            &&& y & 0xFF == (x >> 8) & 0xFF
            &&& (y >> 8) & 0xFF == (x >> 16) & 0xFF
            &&& (y >> 16) & 0xFF == (x >> 24) & 0xFF
            &&& (y >> 24) & 0xFF == 0
        }),
{
}

proof fn lemma_merge_first(x: u32)
    by (bit_vector)
    requires
        (x >> 8) & 0xFF < 255,
    ensures
        ({
            let y = ((x >> 8) + 1) as u32;
            &&& y & 0xFF == ((x >> 8) & 0xFF) + 1
            &&& (y >> 8) & 0xFF == (x >> 16) & 0xFF
            &&& (y >> 16) & 0xFF == (x >> 24) & 0xFF
            &&& (y >> 24) & 0xFF == 0
        }),
{
}

proof fn lemma_merge_second(x: u32)
    by (bit_vector)
    requires
        (x >> 16) & 0xFF < 255,
    ensures
        ({
            let y = (((x >> 8) & !0xFFu32 | (x & 0xFF)) + 0x100) as u32;
            &&& y & 0xFF == x & 0xFF
            &&& (y >> 8) & 0xFF == ((x >> 16) & 0xFF) + 1
            &&& (y >> 16) & 0xFF == (x >> 24) & 0xFF
            &&& (y >> 24) & 0xFF == 0
        }),
{
}

proof fn lemma_merge_third(x: u32)
    by (bit_vector)
    requires
        (x >> 24) & 0xFF < 255,
    ensures
        ({
            let y = (((x >> 8) & !0xFFFFu32 | (x & 0xFFFF)) + 0x10000) as u32;
            &&& y & 0xFF == x & 0xFF
            &&& (y >> 8) & 0xFF == (x >> 8) & 0xFF
            &&& (y >> 16) & 0xFF == ((x >> 24) & 0xFF) + 1
            &&& (y >> 24) & 0xFF == 0
        }),
{
}

proof fn lemma_no_overflow(x: u32)
    by (bit_vector)
    ensures
        (x >> 8) + 1 <= u32::MAX,
        ((x >> 8) & !0xFFu32 | (x & 0xFF)) + 0x100 <= u32::MAX,
        ((x >> 8) & !0xFFFFu32 | (x & 0xFFFF)) + 0x10000 <= u32::MAX,
{
}

/// The merges of the four-cell fast path on a word of four slid cells.
fn merge_packed(bytes: u32) -> (merged: u32)
    ensures
        merged == merge_word(bytes as int),
        !merge_four_wraps(
            unpack_row(bytes)[0],
            unpack_row(bytes)[1],
            unpack_row(bytes)[2],
            unpack_row(bytes)[3],
        ) ==> unpack_row(merged) == merge_four(
            unpack_row(bytes)[0],
            unpack_row(bytes)[1],
            unpack_row(bytes)[2],
            unpack_row(bytes)[3],
        ),
{
    let ghost row = unpack_row(bytes);
    let ghost wraps = merge_four_wraps(row[0], row[1], row[2], row[3]);
    let ghost (mut a, mut b, mut c, mut d) = (row[0], row[1], row[2], row[3]);
    let ghost w0 = bytes as int;
    let mut bytes = bytes;
    proof { lemma_bytes(bytes); lemma_no_overflow(bytes); lemma_word_arith(bytes); }
    if bytes & 0xFF == 0 {
        return bytes;
    }
    if (bytes ^ (bytes >> 8)) & 0xFF == 0 {
        proof {
            if !wraps {
                lemma_merge_first(bytes);
            }
        }
        bytes = (bytes >> 8) + 1;
        proof { a = merged_tile(b); b = c; c = d; d = 0; }
    }
    let ghost w1 = bytes as int;
    assert(w1 == if word_cell(w0, 0) == word_cell(w0, 1) { merge_at(w0, 0) } else { w0 });
    proof { lemma_bytes(bytes); lemma_no_overflow(bytes); lemma_word_arith(bytes); }
    assert(!wraps ==> unpack_row(bytes) =~= seq![a, b, c, d]);
    if bytes & 0xFF00 == 0 {
        return bytes;
    }
    if (bytes ^ (bytes >> 8)) & 0xFF00 == 0 {
        proof {
            if !wraps {
                lemma_merge_second(bytes);
            }
        }
        bytes = (bytes >> 8) & !0xFF | (bytes & 0xFF);
        assert(1u32 << 8 == 0x100u32) by (bit_vector);
        bytes += 1 << 8;
        proof { b = merged_tile(c); c = d; d = 0; }
    }
    let ghost w2 = bytes as int;
    assert(w2 == if word_cell(w1, 1) == word_cell(w1, 2) { merge_at(w1, 1) } else { w1 });
    proof { lemma_bytes(bytes); lemma_no_overflow(bytes); lemma_word_arith(bytes); }
    assert(!wraps ==> unpack_row(bytes) =~= seq![a, b, c, d]);
    if bytes & 0xFF0000 == 0 {
        return bytes;
    }
    if (bytes ^ (bytes >> 8)) & 0xFF0000 == 0 {
        proof {
            if !wraps {
                lemma_merge_third(bytes);
            }
        }
        bytes = (bytes >> 8) & !0xFFFF | (bytes & 0xFFFF);
        assert(1u32 << 16 == 0x10000u32) by (bit_vector);
        bytes += 1 << 16;
        proof { c = merged_tile(d); d = 0; }
    }
    assert(bytes as int == if word_cell(w2, 2) == word_cell(w2, 3) { merge_at(w2, 2) } else { w2 });
    assert(!wraps ==> unpack_row(bytes) =~= seq![a, b, c, d]);
    bytes
}

/// The swipe of a row of four cells packed in a `u32` (first cell in the low
/// byte), computed with word operations: the word of [`fast_swipe_word`].
/// Unless two 255 tiles merge, it gives the same row as [`swipe_left`]; where
/// they do, the merged tile carries into the next cell of the word.
pub fn swipe_left_4_fast(bytes: u32) -> (swiped: u32)
    ensures
        swiped == fast_swipe_word(unpack_row(bytes)),
        !swipe_trace(unpack_row(bytes)).wrapped ==> unpack_row(swiped) == swiped_row(
            unpack_row(bytes),
        ),
{
    let ghost row = unpack_row(bytes);
    proof {
        lemma_swipe_four(row[0], row[1], row[2], row[3]);
        assert(row =~= seq![row[0], row[1], row[2], row[3]]);
    }
    let mut bytes = bytes;
    let ghost (mut a, mut b, mut c, mut d) = (row[0], row[1], row[2], row[3]);
    proof { lemma_bytes(bytes); }
    if bytes & 0xFF0000 == 0 {
        proof { lemma_slide_third(bytes); }
        bytes = (bytes >> 8) & !0xFFFF | bytes & 0xFFFF;
        proof { c = d; d = 0; }
    }
    proof { lemma_bytes(bytes); }
    if bytes & 0xFF00 == 0 {
        proof { lemma_slide_second(bytes); }
        bytes = (bytes >> 8) & !0xFF | bytes & 0xFF;
        proof { b = c; c = d; d = 0; }
    }
    proof { lemma_bytes(bytes); }
    if bytes & 0xFF == 0 {
        proof { lemma_slide_first(bytes); }
        bytes >>= 8;
        proof { a = b; b = c; c = d; d = 0; }
    }
    proof { lemma_bytes(bytes); lemma_word_arith(bytes); }
    assert(unpack_row(bytes) =~= seq![a, b, c, d]);
    assert((a, b, c, d) == compress_four(row[0], row[1], row[2], row[3]));
    assert(swipe_trace(row).wrapped == merge_four_wraps(a, b, c, d));
    assert(swiped_row(row) == merge_four(a, b, c, d));
    assert(bytes as int == pack_four(a, b, c, d));
    merge_packed(bytes)
}

enum SwipeResult {
    Unchanged,
    Changed { score: u32 },
}

impl SwipeResult {
    spec fn score(self) -> int {
        match self {
            SwipeResult::Unchanged => 0,
            SwipeResult::Changed { score } => score as int,
        }
    }

    fn handle_merge(&mut self, merged_block: u8)
        requires
            merged_block != 0,
            merged_block < 32,
            old(self).score() + pow(2, merged_block as nat) <= u32::MAX,
        ensures
            *final(self) == (SwipeResult::Changed {
                score: (old(self).score() + pow(2, merged_block as nat)) as u32,
            }),
    {
        let new_score = u32_pow(2, merged_block as u32);
        match self {
            SwipeResult::Unchanged => *self = SwipeResult::Changed { score: new_score },
            SwipeResult::Changed { score } => *score = *score + new_score,
        }
    }

    fn handle_move(&mut self)
        ensures
            *final(self) == (match *old(self) {
                SwipeResult::Unchanged => SwipeResult::Changed { score: 0 },
                other => other,
            }),
    {
        match self {
            SwipeResult::Unchanged => *self = SwipeResult::Changed { score: 0 },
            SwipeResult::Changed { .. } => {},
        }
    }

    fn is_unchanged(&self) -> (r: bool)
        ensures
            r == (*self is Unchanged),
    {
        match self {
            SwipeResult::Unchanged => true,
            SwipeResult::Changed { .. } => false,
        }
    }
}

/// `base` raised to `exp`, which the caller keeps within `u32`, as
/// `u32::pow` computes it.
pub(crate) fn u32_pow(base: u32, exp: u32) -> (r: u32)
    requires
        pow(base as int, exp as nat) <= u32::MAX,
    ensures
        r == pow(base as int, exp as nat),
{
    let mut r: u32 = 1;
    let mut i: u32 = 0;
    proof {
        reveal(pow);
    }
    while i < exp
        invariant
            i <= exp,
            r == pow(base as int, i as nat),
            pow(base as int, exp as nat) <= u32::MAX,
        decreases exp - i,
    {
        proof {
            reveal(pow);
            assert(pow(base as int, (i + 1) as nat) == base * pow(base as int, i as nat));
            if base > 0 {
                vstd::arithmetic::power::lemma_pow_increases(base as nat, (i + 1) as nat, exp as nat);
            }
            vstd::arithmetic::mul::lemma_mul_is_commutative(r as int, base as int);
            assert(r * base == pow(base as int, (i + 1) as nat));
            assert(r * base <= u32::MAX);
        }
        r = r * base;
        i = i + 1;
    }
    r
}

/// Swipes a row towards its first cell, and reports whether some tile moved or
/// a merge left a tile, with the score of the merges.
fn swipe_blocks<const SIZE: usize>(cells: &mut [u8; SIZE]) -> (result: SwipeResult)
    requires
        swipe_is_safe(old(cells)@),
    ensures
        final(cells)@ == swiped_row(old(cells)@),
        (result is Unchanged) == !swipe_changed(old(cells)@),
        result.score() == swipe_trace(old(cells)@).score,
{
    let ghost row = cells@;
    if SIZE == 0 {
        assert(swiped_row(row) =~= row);
        return SwipeResult::Unchanged;
    }
    let mut last_pos: usize = 0;
    let mut result = SwipeResult::Unchanged;
    let mut blocks: [u8; SIZE] = *cells;
    let mut i: usize = 1;
    proof {
        assert(row.take(1).drop_last() =~= Seq::<u8>::empty());
        assert(blocks@ == row);
        let t0 = swipe_trace(Seq::<u8>::empty());
        assert(t0.placed.len() == 0 && t0.pending == 0 && !t0.changed && t0.score == 0);
        assert(row.take(1).last() == row[0]);
    }
    while i < SIZE
        invariant
            1 <= i <= SIZE,
            row.len() == SIZE,
            blocks@.len() == SIZE,
            swipe_is_safe(row),
            last_pos < i,
            last_pos == swipe_trace(row.take(i as int)).placed.len(),
            forall|k: int|
                0 <= k < last_pos ==> blocks@[k] == swipe_trace(row.take(i as int)).placed[k],
            blocks@[last_pos as int] == swipe_trace(row.take(i as int)).pending,
            forall|k: int| last_pos < k < i ==> blocks@[k] == 0,
            forall|k: int| i <= k < SIZE ==> blocks@[k] == row[k],
            (result is Unchanged) == !swipe_trace(row.take(i as int)).changed,
            result.score() == swipe_trace(row.take(i as int)).score,
        decreases SIZE - i,
    {
        let ghost t = swipe_trace(row.take(i as int));
        proof {
            assert(row.take(i + 1).drop_last() =~= row.take(i as int));
            lemma_trace_prefix(row, i + 1);
            lemma_trace_len(row.take(i as int));
        }
        let block = blocks[i];
        if block == 0 {
        } else if blocks[last_pos] == block {
            let merged_block = block.wrapping_add(1);
            blocks[last_pos] = merged_block;
            blocks[i] = 0;
            if merged_block != 0 {
                proof {
                    vstd::arithmetic::power::lemma_pow_positive(2, merged_block as nat);
                }
                result.handle_merge(merged_block);
            }
            last_pos = last_pos + 1;
        } else {
            if blocks[last_pos] != 0 {
                last_pos = last_pos + 1;
            }
            let moved_block = blocks[i];
            blocks[i] = blocks[last_pos];
            blocks[last_pos] = moved_block;
            if last_pos != i {
                result.handle_move();
            }
        }
        i = i + 1;
    }
    proof {
        let t = swipe_trace(row);
        assert(row.take(SIZE as int) =~= row);
        lemma_trace_len(row);
        assert(blocks@ =~= swiped_row(row));
    }
    *cells = blocks;
    result
}

/// Swipes a row towards its first cell: tiles slide over empty cells, and two
/// equal tiles that meet merge into one tile of the next exponent, each tile
/// merging at most once. Returns whether some tile moved or a merge left a tile.
pub fn swipe_left<const SIZE: usize>(cells: &mut [u8; SIZE]) -> (changed: bool)
    requires
        swipe_is_safe(old(cells)@),
    ensures
        final(cells)@ == swiped_row(old(cells)@),
        changed == swipe_changed(old(cells)@),
{
    let result = swipe_blocks(cells);
    !result.is_unchanged()
}

/// Swipes a row towards its first cell, as [`swipe_left`] does. Returns whether
/// the swipe reports a change, and the sum of `2^t` over the tiles `t` that
/// merges created.
pub(crate) fn swipe_left_scored<const SIZE: usize>(cells: &mut [u8; SIZE]) -> (r: (bool, u32))
    requires
        swipe_is_safe(old(cells)@),
    ensures
        final(cells)@ == swiped_row(old(cells)@),
        r.0 == swipe_changed(old(cells)@),
        r.1 == swipe_trace(old(cells)@).score,
{
    match swipe_blocks(cells) {
        SwipeResult::Unchanged => (false, 0),
        SwipeResult::Changed { score } => (true, score),
    }
}

/// Whether a swipe of `row` towards its first cell is safe: every merge
/// leaves an empty cell or a tile below 32, and the merge score fits in a
/// `u32` (see [`swipe_is_safe`]).
pub fn row_swipe_is_safe(row: &Vec<u8>) -> (r: bool)
    ensures
        r == swipe_is_safe(row@),
{
    let ghost cells = row@;
    let mut pending: u8 = 0;
    let mut score: u64 = 0;
    let mut i: usize = 0;
    proof {
        assert(cells.take(0) =~= Seq::<u8>::empty());
    }
    while i < row.len()
        invariant
            0 <= i <= cells.len(),
            cells == row@,
            pending == swipe_trace(cells.take(i as int)).pending,
            score == swipe_trace(cells.take(i as int)).score,
            swipe_trace(cells.take(i as int)).small_merges,
            score <= u32::MAX,
        decreases cells.len() - i,
    {
        proof {
            assert(cells.take(i + 1).drop_last() =~= cells.take(i as int));
            assert(cells.take(i + 1).last() == cells[i as int]);
            lemma_trace_prefix(cells, i + 1);
        }
        let tile = row[i];
        if tile == 0 {
        } else if pending == tile {
            let merged = tile.wrapping_add(1);
            if merged != 0 {
                if merged >= 32 {
                    return false;
                }
                proof {
                    vstd::arithmetic::power2::lemma2_to64();
                    vstd::arithmetic::power2::lemma_pow2_strictly_increases(merged as nat, 32);
                    vstd::arithmetic::power::lemma_pow_positive(2, merged as nat);
                }
                let worth = u32_pow(2, merged as u32);
                score = score + worth as u64;
                if score > 0xFFFF_FFFF {
                    return false;
                }
            }
            pending = 0;
        } else {
            pending = tile;
        }
        i = i + 1;
    }
    proof {
        assert(cells.take(cells.len() as int) =~= cells);
    }
    true
}

/// Reverses a row in place.
pub(crate) fn reverse_row<const SIZE: usize>(cells: &mut [u8; SIZE])
    ensures
        final(cells)@ == old(cells)@.reverse(),
{
    let ghost row = cells@;
    let mut lo: usize = 0;
    while lo < SIZE / 2
        invariant
            cells@.len() == SIZE,
            row.len() == SIZE,
            lo <= SIZE / 2,
            forall|k: int| 0 <= k < lo ==> cells@[k] == row[SIZE - 1 - k],
            forall|k: int| 0 <= k < lo ==> cells@[SIZE - 1 - k] == row[k],
            forall|k: int| lo <= k < SIZE - lo ==> cells@[k] == row[k],
        decreases SIZE / 2 - lo,
    {
        let hi = SIZE - 1 - lo;
        let tmp = cells[lo];
        cells[lo] = cells[hi];
        cells[hi] = tmp;
        lo = lo + 1;
    }
    assert(cells@ =~= row.reverse());
}

/// Swipes a row towards its last cell: the left swipe of the reversed row,
/// reversed back.
pub fn swipe_right<const SIZE: usize>(cells: &mut [u8; SIZE]) -> (changed: bool)
    requires
        swipe_is_safe(old(cells)@.reverse()),
    ensures
        final(cells)@ == swiped_row(old(cells)@.reverse()).reverse(),
        changed == swipe_changed(old(cells)@.reverse()),
{
    reverse_row(cells);
    let swiped = swipe_left(cells);
    reverse_row(cells);
    swiped
}

} // verus!
