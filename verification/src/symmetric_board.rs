//! Boards up to symmetry: a board and its mirror images (and, on a square
//! board, its rotations) have the same representative.
//!
//! The representative is the greatest, in lexicographic order, of the ways
//! of reading the board cell by cell: row by row or (on a square board)
//! column by column, each line forwards or backwards, the lines from first
//! to last or from last to first.
pub use crate::game::twenty_forty_eight::board::Direction;
use crate::algebra::Dihedral;
use crate::game::twenty_forty_eight::board::Cells;
use crate::utils::{is_lex_max, lemma_lex_max_unique, MaxIter};
use vstd::prelude::*;

verus! {

/// The cell of `b` read at position `i`, for a grid of `rows` rows of `cols`
/// cells: row by row, or column by column when `transposed`; rows taken from
/// the last when `flip_rows`, cells of a row from the last when `flip_cols`.
pub open spec fn read_at(
    b: Seq<Seq<u8>>,
    rows: int,
    cols: int,
    flip_rows: bool,
    flip_cols: bool,
    transposed: bool,
    i: int,
) -> u8 {
    let r = if transposed {
        i % rows
    } else {
        i / cols
    };
    let c = if transposed {
        i / rows
    } else {
        i % cols
    };
    let r2 = if flip_rows {
        rows - 1 - r
    } else {
        r
    };
    let c2 = if flip_cols {
        cols - 1 - c
    } else {
        c
    };
    b[r2][c2]
}

/// The whole of `b` read in the way `read_at` describes.
pub open spec fn reading(
    b: Seq<Seq<u8>>,
    rows: int,
    cols: int,
    flip_rows: bool,
    flip_cols: bool,
    transposed: bool,
) -> Seq<u8> {
    Seq::new(
        (rows * cols) as nat,
        |i: int| read_at(b, rows, cols, flip_rows, flip_cols, transposed, i),
    )
}

/// The readings that a board is compared by: row by row in the four ways of
/// flipping, and on a square board also column by column in those four ways.
pub open spec fn readings(b: Seq<Seq<u8>>, rows: int, cols: int) -> Seq<Seq<u8>> {
    let by_rows = seq![
        reading(b, rows, cols, false, false, false),
        reading(b, rows, cols, true, false, false),
        reading(b, rows, cols, false, true, false),
        reading(b, rows, cols, true, true, false),
    ];
    if rows == cols {
        by_rows + seq![
            reading(b, rows, cols, false, false, true),
            reading(b, rows, cols, true, false, true),
            reading(b, rows, cols, false, true, true),
            reading(b, rows, cols, true, true, true),
        ]
    } else {
        by_rows
    }
}

/// The cells of a grid, row by row.
pub open spec fn flat<const COLS: usize, const ROWS: usize>(m: Cells<COLS, ROWS>) -> Seq<u8> {
    Seq::new((ROWS * COLS) as nat, |i: int| m.at(i / (COLS as int), i % (COLS as int)))
}

/// The rows of `cells`.
pub open spec fn grid_of<const COLS: usize, const ROWS: usize>(cells: [[u8; COLS]; ROWS]) -> Seq<Seq<u8>> {
    Seq::new(ROWS as nat, |r: int| cells@[r]@)
}

/// The grid with its rows in reverse order.
pub open spec fn flip_rows(b: Seq<Seq<u8>>, rows: int, cols: int) -> Seq<Seq<u8>> {
    Seq::new(rows as nat, |r: int| Seq::new(cols as nat, |c: int| b[rows - 1 - r][c]))
}

/// The grid with each row in reverse order.
pub open spec fn flip_cols(b: Seq<Seq<u8>>, rows: int, cols: int) -> Seq<Seq<u8>> {
    Seq::new(rows as nat, |r: int| Seq::new(cols as nat, |c: int| b[r][cols - 1 - c]))
}

/// The square grid of side `n` mirrored along its diagonal.
pub open spec fn transpose(b: Seq<Seq<u8>>, n: int) -> Seq<Seq<u8>> {
    Seq::new(n as nat, |r: int| Seq::new(n as nat, |c: int| b[c][r]))
}

/// Where `0 <= i < rows * cols`, reading row by row or column by column
/// stays inside the grid.
proof fn lemma_read_in_grid(rows: int, cols: int, i: int)
    requires
        rows >= 0,
        cols >= 0,
        0 <= i < rows * cols,
    ensures
        0 <= i / cols < rows,
        0 <= i % cols < cols,
        0 <= i % rows < rows,
        0 <= i / rows < cols,
{
    assert(rows > 0 && cols > 0) by (nonlinear_arith)
        requires
            rows >= 0,
            cols >= 0,
            0 <= i < rows * cols,
    ;
    assert(0 <= i / cols < rows) by (nonlinear_arith)
        requires
            rows > 0,
            cols > 0,
            0 <= i < rows * cols,
    ;
    assert(0 <= i / rows < cols) by (nonlinear_arith)
        requires
            rows > 0,
            cols > 0,
            0 <= i < rows * cols,
    ;
    assert(0 <= i % cols < cols) by (nonlinear_arith)
        requires
            cols > 0,
    ;
    assert(0 <= i % rows < rows) by (nonlinear_arith)
        requires
            rows > 0,
    ;
}

/// `m` is the greatest of `seqs` exactly when it is the greatest of `other`,
/// where both hold the same sequences.
proof fn lemma_lex_max_same_members(m: Seq<u8>, seqs: Seq<Seq<u8>>, other: Seq<Seq<u8>>)
    requires
        seqs.len() > 0,
        other.len() > 0,
        forall|i: int| 0 <= i < seqs.len() ==> other.contains(#[trigger] seqs[i]),
        forall|i: int| 0 <= i < other.len() ==> seqs.contains(#[trigger] other[i]),
    ensures
        is_lex_max(m, seqs) ==> is_lex_max(m, other),
{
    if is_lex_max(m, seqs) {
        let j = choose|j: int| 0 <= j < seqs.len() && seqs[j] == m;
        assert(other.contains(seqs[j]));
        assert forall|i: int| 0 <= i < other.len() implies !crate::utils::lex_lt(
            m,
            #[trigger] other[i],
        ) by {
            assert(seqs.contains(other[i]));
            let k = choose|k: int| 0 <= k < seqs.len() && seqs[k] == other[i];
            assert(!crate::utils::lex_lt(m, seqs[k]));
        }
    }
}

/// Two grids that hold the same cells are the same.
proof fn lemma_flat_injective<const COLS: usize, const ROWS: usize>(
    a: Cells<COLS, ROWS>,
    b: Cells<COLS, ROWS>,
)
    requires
        flat(a) == flat(b),
    ensures
        a == b,
{
    assert forall|r: int| 0 <= r < ROWS implies a.cells[r] == b.cells[r] by {
        assert forall|c: int| 0 <= c < COLS implies a.cells[r][c] == b.cells[r][c] by {
            let i = r * COLS + c;
            assert(0 <= i < ROWS * COLS) by (nonlinear_arith)
                requires
                    0 <= r < ROWS,
                    0 <= c < COLS,
                    i == r * COLS + c,
            ;
            vstd::arithmetic::div_mod::lemma_fundamental_div_mod_converse(i, COLS as int, r, c);
            assert(flat(a)[i] == flat(b)[i]);
            assert(flat(a)[i] == a.at(i / (COLS as int), i % (COLS as int)));
            assert(flat(b)[i] == b.at(i / (COLS as int), i % (COLS as int)));
            assert(a.at(r, c) == b.at(r, c));
            assert(a.cells@[r]@[c] == b.cells@[r]@[c]);
        }
        assert(a.cells[r] =~= b.cells[r]);
    }
    assert(a.cells =~= b.cells);
}

/// A board, held as the greatest of its readings: all the boards that are
/// mirror images (or, when square, rotations) of each other are held the
/// same way.
#[derive(Clone, Debug, PartialEq, Eq, Hash)]
pub struct SymmetricBoard<const COLS: usize, const ROWS: usize> {
    max_board: Cells<COLS, ROWS>,
}

impl<const COLS: usize, const ROWS: usize> SymmetricBoard<COLS, ROWS> {
    /// The representative grid: the greatest reading, laid out row by row.
    pub closed spec fn board(self) -> Cells<COLS, ROWS> {
        self.max_board
    }

    /// The representative grid as text, as [`Cells::render`] shows it.
    pub fn render(&self) -> (text: String)
        requires
            self.board().cells_at_most(168),
        ensures
            text@ == crate::game::twenty_forty_eight::board::grid_text(self.board()@),
    {
        self.max_board.render()
    }

    /// This is the representative of the grid `b`.
    pub open spec fn represents(self, b: Seq<Seq<u8>>) -> bool {
        is_lex_max(flat(self.board()), readings(b, ROWS as int, COLS as int))
    }
}

/// The representative of `cells`.
pub closed spec fn representative<const COLS: usize, const ROWS: usize>(
    cells: [[u8; COLS]; ROWS],
) -> SymmetricBoard<COLS, ROWS> {
    choose|s: SymmetricBoard<COLS, ROWS>| s.represents(grid_of(cells))
}

/// A board has one representative.
pub proof fn lemma_represents_unique<const COLS: usize, const ROWS: usize>(
    s1: SymmetricBoard<COLS, ROWS>,
    s2: SymmetricBoard<COLS, ROWS>,
    b: Seq<Seq<u8>>,
)
    requires
        s1.represents(b),
        s2.represents(b),
    ensures
        s1 == s2,
{
    lemma_lex_max_unique(flat(s1.board()), flat(s2.board()), readings(b, ROWS as int, COLS as int));
    lemma_flat_injective(s1.board(), s2.board());
}

/// Reading a grid with its rows reversed is reading the grid with the other
/// choice of `flip_rows`.
proof fn lemma_reading_flip_rows(b: Seq<Seq<u8>>, rows: int, cols: int, fr: bool, fc: bool, tr: bool)
    requires
        rows >= 0,
        cols >= 0,
        tr ==> rows == cols,
    ensures
        reading(flip_rows(b, rows, cols), rows, cols, fr, fc, tr) == reading(b, rows, cols, !fr, fc, tr),
{
    assert forall|i: int| 0 <= i < rows * cols implies #[trigger] read_at(
        flip_rows(b, rows, cols),
        rows,
        cols,
        fr,
        fc,
        tr,
        i,
    ) == read_at(b, rows, cols, !fr, fc, tr, i) by {
        lemma_read_in_grid(rows, cols, i);
    }
    assert(reading(flip_rows(b, rows, cols), rows, cols, fr, fc, tr) =~= reading(
        b,
        rows,
        cols,
        !fr,
        fc,
        tr,
    ));
}

/// Reading a grid with each row reversed is reading the grid with the other
/// choice of `flip_cols`.
proof fn lemma_reading_flip_cols(b: Seq<Seq<u8>>, rows: int, cols: int, fr: bool, fc: bool, tr: bool)
    requires
        rows >= 0,
        cols >= 0,
        tr ==> rows == cols,
    ensures
        reading(flip_cols(b, rows, cols), rows, cols, fr, fc, tr) == reading(b, rows, cols, fr, !fc, tr),
{
    assert forall|i: int| 0 <= i < rows * cols implies #[trigger] read_at(
        flip_cols(b, rows, cols),
        rows,
        cols,
        fr,
        fc,
        tr,
        i,
    ) == read_at(b, rows, cols, fr, !fc, tr, i) by {
        lemma_read_in_grid(rows, cols, i);
    }
    assert(reading(flip_cols(b, rows, cols), rows, cols, fr, fc, tr) =~= reading(
        b,
        rows,
        cols,
        fr,
        !fc,
        tr,
    ));
}

/// Reading a square grid mirrored along its diagonal is reading the grid the
/// other way (by columns for by rows and back), with the two flips swapped.
proof fn lemma_reading_transpose(b: Seq<Seq<u8>>, n: int, fr: bool, fc: bool, tr: bool)
    requires
        n >= 0,
    ensures
        reading(transpose(b, n), n, n, fr, fc, tr) == reading(b, n, n, fc, fr, !tr),
{
    assert forall|i: int| 0 <= i < n * n implies #[trigger] read_at(
        transpose(b, n),
        n,
        n,
        fr,
        fc,
        tr,
        i,
    ) == read_at(b, n, n, fc, fr, !tr, i) by {
        lemma_read_in_grid(n, n, i);
    }
    assert(reading(transpose(b, n), n, n, fr, fc, tr) =~= reading(b, n, n, fc, fr, !tr));
}

/// Two lists that are the same up to the order `p` (which is its own
/// inverse) hold the same members.
proof fn lemma_permuted_members(x: Seq<Seq<u8>>, y: Seq<Seq<u8>>, p: spec_fn(int) -> int)
    requires
        x.len() == y.len(),
        forall|i: int|
            0 <= i < x.len() ==> 0 <= #[trigger] p(i) < x.len() && y[p(i)] == x[i] && x[p(i)] == y[i],
    ensures
        forall|i: int| 0 <= i < x.len() ==> y.contains(#[trigger] x[i]),
        forall|i: int| 0 <= i < y.len() ==> x.contains(#[trigger] y[i]),
{
    assert forall|i: int| 0 <= i < x.len() implies y.contains(#[trigger] x[i]) by {
        assert(y[p(i)] == x[i]);
    }
    assert forall|i: int| 0 <= i < y.len() implies x.contains(#[trigger] y[i]) by {
        assert(x[p(i)] == y[i]);
    }
}

/// Where two boards have the same readings up to order, their
/// representatives are the same.
proof fn lemma_same_representative<const COLS: usize, const ROWS: usize>(
    s1: SymmetricBoard<COLS, ROWS>,
    s2: SymmetricBoard<COLS, ROWS>,
    b1: Seq<Seq<u8>>,
    b2: Seq<Seq<u8>>,
    p: spec_fn(int) -> int,
)
    requires
        s1.represents(b1),
        s2.represents(b2),
        readings(b2, ROWS as int, COLS as int).len() == readings(b1, ROWS as int, COLS as int).len(),
        forall|i: int|
            0 <= i < readings(b2, ROWS as int, COLS as int).len() ==> 0 <= #[trigger] p(i)
                < readings(b2, ROWS as int, COLS as int).len() && readings(
                b1,
                ROWS as int,
                COLS as int,
            )[p(i)] == readings(b2, ROWS as int, COLS as int)[i] && readings(
                b2,
                ROWS as int,
                COLS as int,
            )[p(i)] == readings(b1, ROWS as int, COLS as int)[i],
    ensures
        s1 == s2,
{
    let x = readings(b2, ROWS as int, COLS as int);
    let y = readings(b1, ROWS as int, COLS as int);
    lemma_permuted_members(x, y, p);
    lemma_lex_max_same_members(flat(s2.board()), x, y);
    lemma_represents_unique(s1, s2, b1);
}

/// Mirroring a board top to bottom does not change its representative.
pub proof fn lemma_flip_rows_same_representative<const COLS: usize, const ROWS: usize>(
    s1: SymmetricBoard<COLS, ROWS>,
    s2: SymmetricBoard<COLS, ROWS>,
    b: Seq<Seq<u8>>,
)
    requires
        s1.represents(b),
        s2.represents(flip_rows(b, ROWS as int, COLS as int)),
    ensures
        s1 == s2,
{
    let (r, c) = (ROWS as int, COLS as int);
    let f = flip_rows(b, r, c);
    let p = |i: int|
        if i % 2 == 0 {
            i + 1
        } else {
            i - 1
        };
    lemma_reading_flip_rows(b, r, c, false, false, false);
    lemma_reading_flip_rows(b, r, c, true, false, false);
    lemma_reading_flip_rows(b, r, c, false, true, false);
    lemma_reading_flip_rows(b, r, c, true, true, false);
    if r == c {
        lemma_reading_flip_rows(b, r, c, false, false, true);
        lemma_reading_flip_rows(b, r, c, true, false, true);
        lemma_reading_flip_rows(b, r, c, false, true, true);
        lemma_reading_flip_rows(b, r, c, true, true, true);
    }
    let x = readings(f, r, c);
    let y = readings(b, r, c);
    assert forall|i: int| 0 <= i < x.len() implies 0 <= #[trigger] p(i) < x.len() && y[p(i)] == x[i]
        && x[p(i)] == y[i] by {
        if i == 0 {
        } else if i == 1 {
        } else if i == 2 {
        } else if i == 3 {
        } else if i == 4 {
        } else if i == 5 {
        } else if i == 6 {
        } else {
        }
    }
    lemma_same_representative(s1, s2, b, f, p);
}

/// Mirroring a board left to right does not change its representative.
pub proof fn lemma_flip_cols_same_representative<const COLS: usize, const ROWS: usize>(
    s1: SymmetricBoard<COLS, ROWS>,
    s2: SymmetricBoard<COLS, ROWS>,
    b: Seq<Seq<u8>>,
)
    requires
        s1.represents(b),
        s2.represents(flip_cols(b, ROWS as int, COLS as int)),
    ensures
        s1 == s2,
{
    let (r, c) = (ROWS as int, COLS as int);
    let f = flip_cols(b, r, c);
    let p = |i: int|
        if (i / 2) % 2 == 0 {
            i + 2
        } else {
            i - 2
        };
    lemma_reading_flip_cols(b, r, c, false, false, false);
    lemma_reading_flip_cols(b, r, c, true, false, false);
    lemma_reading_flip_cols(b, r, c, false, true, false);
    lemma_reading_flip_cols(b, r, c, true, true, false);
    if r == c {
        lemma_reading_flip_cols(b, r, c, false, false, true);
        lemma_reading_flip_cols(b, r, c, true, false, true);
        lemma_reading_flip_cols(b, r, c, false, true, true);
        lemma_reading_flip_cols(b, r, c, true, true, true);
    }
    let x = readings(f, r, c);
    let y = readings(b, r, c);
    assert forall|i: int| 0 <= i < x.len() implies 0 <= #[trigger] p(i) < x.len() && y[p(i)] == x[i]
        && x[p(i)] == y[i] by {
        if i == 0 {
        } else if i == 1 {
        } else if i == 2 {
        } else if i == 3 {
        } else if i == 4 {
        } else if i == 5 {
        } else if i == 6 {
        } else {
        }
    }
    lemma_same_representative(s1, s2, b, f, p);
}

/// Mirroring a square board along its diagonal does not change its
/// representative. With the two mirrorings above, neither does turning it
/// by a quarter.
pub proof fn lemma_transpose_same_representative<const COLS: usize, const ROWS: usize>(
    s1: SymmetricBoard<COLS, ROWS>,
    s2: SymmetricBoard<COLS, ROWS>,
    b: Seq<Seq<u8>>,
)
    requires
        ROWS == COLS,
        s1.represents(b),
        s2.represents(transpose(b, ROWS as int)),
    ensures
        s1 == s2,
{
    let n = ROWS as int;
    let t = transpose(b, n);
    let p = |i: int|
        if i == 0 {
            4
        } else if i == 1 {
            6
        } else if i == 2 {
            5
        } else if i == 3 {
            7
        } else if i == 4 {
            0
        } else if i == 5 {
            2
        } else if i == 6 {
            1
        } else {
            3
        };
    lemma_reading_transpose(b, n, false, false, false);
    lemma_reading_transpose(b, n, true, false, false);
    lemma_reading_transpose(b, n, false, true, false);
    lemma_reading_transpose(b, n, true, true, false);
    lemma_reading_transpose(b, n, false, false, true);
    lemma_reading_transpose(b, n, true, false, true);
    lemma_reading_transpose(b, n, false, true, true);
    lemma_reading_transpose(b, n, true, true, true);
    let x = readings(t, n, n);
    let y = readings(b, n, n);
    assert forall|i: int| 0 <= i < x.len() implies 0 <= #[trigger] p(i) < x.len() && y[p(i)] == x[i]
        && x[p(i)] == y[i] by {
        if i == 0 {
        } else if i == 1 {
        } else if i == 2 {
        } else if i == 3 {
        } else if i == 4 {
        } else if i == 5 {
        } else if i == 6 {
        } else {
        }
    }
    lemma_same_representative(s1, s2, b, t, p);
}

/// `x` counted from the start of `0..n`, or from its end when `flip`.
pub open spec fn mirror(flip: bool, n: int, x: int) -> int {
    if flip {
        n - 1 - x
    } else {
        x
    }
}

/// `b` is `a` moved by a symmetry of a grid of `rows` rows of `cols` cells:
/// the cell of `b` at row `r` and column `c` is the cell of `a` at row `r`
/// and column `c` (at row `c` and column `r` when `transposed`), the row
/// counted from the end when `flip_rows` and the column when `flip_cols`.
/// Only a square grid has the symmetries that transpose.
pub open spec fn is_symmetry_of(
    b: Seq<Seq<u8>>,
    a: Seq<Seq<u8>>,
    rows: int,
    cols: int,
    flip_rows: bool,
    flip_cols: bool,
    transposed: bool,
) -> bool {
    &&& transposed ==> rows == cols
    &&& forall|r: int, c: int|
        0 <= r < rows && 0 <= c < cols ==> #[trigger] b[r][c] == if transposed {
            a[mirror(flip_rows, rows, c)][mirror(flip_cols, cols, r)]
        } else {
            a[mirror(flip_rows, rows, r)][mirror(flip_cols, cols, c)]
        }
}

/// The place in [`readings`] of the reading with these choices.
spec fn reading_index(fr: bool, fc: bool, tr: bool) -> int {
    (if fr {
        1int
    } else {
        0int
    }) + (if fc {
        2int
    } else {
        0int
    }) + (if tr {
        4int
    } else {
        0int
    })
}

/// Each reading stands in [`readings`] at its place.
proof fn lemma_readings_at(x: Seq<Seq<u8>>, rows: int, cols: int, fr: bool, fc: bool, tr: bool)
    requires
        tr ==> rows == cols,
    ensures
        0 <= reading_index(fr, fc, tr) < readings(x, rows, cols).len(),
        readings(x, rows, cols)[reading_index(fr, fc, tr)] == reading(x, rows, cols, fr, fc, tr),
{
}

/// The reading at place `j` of [`readings`] has the choices that `j` spells.
proof fn lemma_readings_flags(x: Seq<Seq<u8>>, rows: int, cols: int, j: int)
    requires
        0 <= j < readings(x, rows, cols).len(),
    ensures
        j >= 4 ==> rows == cols,
        reading_index(j % 2 == 1, (j / 2) % 2 == 1, j >= 4) == j,
        readings(x, rows, cols)[j] == reading(x, rows, cols, j % 2 == 1, (j / 2) % 2 == 1, j >= 4),
{
}

/// The choices of the reading of `a` that a reading of `b` is, where `b` is
/// `a` moved by the symmetry `(gfr, gfc, gtr)`.
spec fn moved(gfr: bool, gfc: bool, gtr: bool, fr: bool, fc: bool, tr: bool) -> (bool, bool, bool) {
    if gtr {
        (gfr != fc, gfc != fr, !tr)
    } else {
        (gfr != fr, gfc != fc, tr)
    }
}

/// A reading of a moved grid is a reading of the grid.
proof fn lemma_reading_moved(
    b: Seq<Seq<u8>>,
    a: Seq<Seq<u8>>,
    rows: int,
    cols: int,
    gfr: bool,
    gfc: bool,
    gtr: bool,
    fr: bool,
    fc: bool,
    tr: bool,
)
    requires
        rows >= 0,
        cols >= 0,
        is_symmetry_of(b, a, rows, cols, gfr, gfc, gtr),
        tr ==> rows == cols,
    ensures
        moved(gfr, gfc, gtr, fr, fc, tr).2 ==> rows == cols,
        reading(b, rows, cols, fr, fc, tr) == reading(
            a,
            rows,
            cols,
            moved(gfr, gfc, gtr, fr, fc, tr).0,
            moved(gfr, gfc, gtr, fr, fc, tr).1,
            moved(gfr, gfc, gtr, fr, fc, tr).2,
        ),
{
    let m = moved(gfr, gfc, gtr, fr, fc, tr);
    assert forall|i: int| 0 <= i < rows * cols implies #[trigger] read_at(b, rows, cols, fr, fc, tr, i)
        == read_at(a, rows, cols, m.0, m.1, m.2, i) by {
        lemma_read_in_grid(rows, cols, i);
        let r = if tr {
            i % rows
        } else {
            i / cols
        };
        let c = if tr {
            i / rows
        } else {
            i % cols
        };
        let r2 = mirror(fr, rows, r);
        let c2 = mirror(fc, cols, c);
        assert(b[r2][c2] == if gtr {
            a[mirror(gfr, rows, c2)][mirror(gfc, cols, r2)]
        } else {
            a[mirror(gfr, rows, r2)][mirror(gfc, cols, c2)]
        });
    }
    assert(reading(b, rows, cols, fr, fc, tr) =~= reading(a, rows, cols, m.0, m.1, m.2));
}

/// Every reading of a moved grid is one of the readings of the grid.
proof fn lemma_moved_readings_members(
    b: Seq<Seq<u8>>,
    a: Seq<Seq<u8>>,
    rows: int,
    cols: int,
    gfr: bool,
    gfc: bool,
    gtr: bool,
)
    requires
        rows >= 0,
        cols >= 0,
        is_symmetry_of(b, a, rows, cols, gfr, gfc, gtr),
    ensures
        forall|j: int|
            0 <= j < readings(b, rows, cols).len() ==> readings(a, rows, cols).contains(
                #[trigger] readings(b, rows, cols)[j],
            ),
{
    assert forall|j: int| 0 <= j < readings(b, rows, cols).len() implies readings(
        a,
        rows,
        cols,
    ).contains(#[trigger] readings(b, rows, cols)[j]) by {
        lemma_readings_flags(b, rows, cols, j);
        let (fr, fc, tr) = (j % 2 == 1, (j / 2) % 2 == 1, j >= 4);
        lemma_reading_moved(b, a, rows, cols, gfr, gfc, gtr, fr, fc, tr);
        let m = moved(gfr, gfc, gtr, fr, fc, tr);
        lemma_readings_at(a, rows, cols, m.0, m.1, m.2);
    }
}

/// Moving back: the grid is its moved grid moved by the inverse symmetry.
proof fn lemma_symmetry_inverse(
    b: Seq<Seq<u8>>,
    a: Seq<Seq<u8>>,
    rows: int,
    cols: int,
    gfr: bool,
    gfc: bool,
    gtr: bool,
)
    requires
        is_symmetry_of(b, a, rows, cols, gfr, gfc, gtr),
    ensures
        gtr ==> is_symmetry_of(a, b, rows, cols, gfc, gfr, true),
        !gtr ==> is_symmetry_of(a, b, rows, cols, gfr, gfc, false),
{
    if gtr {
        assert forall|x: int, y: int| 0 <= x < rows && 0 <= y < cols implies #[trigger] a[x][y]
            == b[mirror(gfc, rows, y)][mirror(gfr, cols, x)] by {
            let r = mirror(gfc, rows, y);
            let c = mirror(gfr, cols, x);
            assert(b[r][c] == a[mirror(gfr, rows, c)][mirror(gfc, cols, r)]);
        }
    } else {
        assert forall|x: int, y: int| 0 <= x < rows && 0 <= y < cols implies #[trigger] a[x][y]
            == b[mirror(gfr, rows, x)][mirror(gfc, cols, y)] by {
            let r = mirror(gfr, rows, x);
            let c = mirror(gfc, cols, y);
            assert(b[r][c] == a[mirror(gfr, rows, r)][mirror(gfc, cols, c)]);
        }
    }
}

/// Where a reading of `a` and a reading of `b` are the same, `b` is `a`
/// moved by a symmetry.
proof fn lemma_equal_readings_symmetry(
    b: Seq<Seq<u8>>,
    a: Seq<Seq<u8>>,
    rows: int,
    cols: int,
    fr1: bool,
    fc1: bool,
    tr1: bool,
    fr2: bool,
    fc2: bool,
    tr2: bool,
)
    requires
        rows >= 0,
        cols >= 0,
        tr1 ==> rows == cols,
        tr2 ==> rows == cols,
        reading(a, rows, cols, fr1, fc1, tr1) == reading(b, rows, cols, fr2, fc2, tr2),
    ensures
        is_symmetry_of(
            b,
            a,
            rows,
            cols,
            if tr1 == tr2 {
                fr1 != fr2
            } else {
                fr1 != fc2
            },
            if tr1 == tr2 {
                fc1 != fc2
            } else {
                fc1 != fr2
            },
            tr1 != tr2,
        ),
{
    let gfr = if tr1 == tr2 {
        fr1 != fr2
    } else {
        fr1 != fc2
    };
    let gfc = if tr1 == tr2 {
        fc1 != fc2
    } else {
        fc1 != fr2
    };
    let gtr = tr1 != tr2;
    assert forall|r: int, c: int| 0 <= r < rows && 0 <= c < cols implies #[trigger] b[r][c] == if gtr {
        a[mirror(gfr, rows, c)][mirror(gfc, cols, r)]
    } else {
        a[mirror(gfr, rows, r)][mirror(gfc, cols, c)]
    } by {
        let x = mirror(fr2, rows, r);
        let y = mirror(fc2, cols, c);
        let i = if tr2 {
            y * rows + x
        } else {
            x * cols + y
        };
        if tr2 {
            vstd::arithmetic::div_mod::lemma_fundamental_div_mod_converse(i, rows, y, x);
            assert(i < rows * cols) by (nonlinear_arith)
                requires
                    0 <= x < rows,
                    0 <= y < cols,
                    i == y * rows + x,
            ;
        } else {
            vstd::arithmetic::div_mod::lemma_fundamental_div_mod_converse(i, cols, x, y);
            assert(i < rows * cols) by (nonlinear_arith)
                requires
                    0 <= x < rows,
                    0 <= y < cols,
                    i == x * cols + y,
            ;
        }
        assert(0 <= i);
        assert(reading(a, rows, cols, fr1, fc1, tr1)[i] == reading(b, rows, cols, fr2, fc2, tr2)[i]);
        if tr2 {
            assert(i % rows == x && i / rows == y);
        } else {
            assert(i / cols == x && i % cols == y);
        }
        assert(mirror(fr2, rows, x) == r && mirror(fc2, cols, y) == c);
        assert(read_at(b, rows, cols, fr2, fc2, tr2, i) == b[r][c]);
        let r1 = if tr1 {
            i % rows
        } else {
            i / cols
        };
        let c1 = if tr1 {
            i / rows
        } else {
            i % cols
        };
        if tr1 == tr2 {
            assert(r1 == x && c1 == y);
        } else {
            assert(r1 == y && c1 == x);
        }
        assert(read_at(a, rows, cols, fr1, fc1, tr1, i) == a[mirror(fr1, rows, r1)][mirror(fc1, cols, c1)]);
        assert(reading(b, rows, cols, fr2, fc2, tr2)[i] == read_at(b, rows, cols, fr2, fc2, tr2, i));
        assert(reading(a, rows, cols, fr1, fc1, tr1)[i] == read_at(a, rows, cols, fr1, fc1, tr1, i));
        if gtr {
            assert(mirror(fr1, rows, r1) == mirror(gfr, rows, c));
            assert(mirror(fc1, cols, c1) == mirror(gfc, cols, r));
        } else {
            assert(mirror(fr1, rows, r1) == mirror(gfr, rows, r));
            assert(mirror(fc1, cols, c1) == mirror(gfc, cols, c));
        }
    }
}

/// Each reading of `a` is, row by row, the grid that the symmetry with the
/// same choices moves `a` to; so the representative, the greatest reading,
/// is the greatest of the moved grids read row by row.
pub proof fn lemma_reading_is_moved_grid(
    b: Seq<Seq<u8>>,
    a: Seq<Seq<u8>>,
    rows: int,
    cols: int,
    fr: bool,
    fc: bool,
    tr: bool,
)
    requires
        rows >= 0,
        cols >= 0,
        is_symmetry_of(b, a, rows, cols, fr, fc, tr),
    ensures
        reading(a, rows, cols, fr, fc, tr) == Seq::new(
            (rows * cols) as nat,
            |i: int| b[i / cols][i % cols],
        ),
{
    assert forall|i: int| 0 <= i < rows * cols implies #[trigger] read_at(a, rows, cols, fr, fc, tr, i)
        == b[i / cols][i % cols] by {
        lemma_read_in_grid(rows, cols, i);
        assert(b[i / cols][i % cols] == if tr {
            a[mirror(fr, rows, i % cols)][mirror(fc, cols, i / cols)]
        } else {
            a[mirror(fr, rows, i / cols)][mirror(fc, cols, i % cols)]
        });
    }
    assert(reading(a, rows, cols, fr, fc, tr) =~= Seq::new(
        (rows * cols) as nat,
        |i: int| b[i / cols][i % cols],
    ));
}

/// Two boards have the same representative exactly when one is the other
/// moved by a symmetry of the grid: mirrored top to bottom, left to right,
/// both or neither, and on a square grid also any of these after a mirroring
/// along the diagonal.
pub proof fn lemma_same_representative_iff_symmetry<const COLS: usize, const ROWS: usize>(
    s1: SymmetricBoard<COLS, ROWS>,
    s2: SymmetricBoard<COLS, ROWS>,
    a: Seq<Seq<u8>>,
    b: Seq<Seq<u8>>,
)
    requires
        s1.represents(a),
        s2.represents(b),
    ensures
        s1 == s2 <==> exists|fr: bool, fc: bool, tr: bool|
            #[trigger] is_symmetry_of(b, a, ROWS as int, COLS as int, fr, fc, tr),
{
    let (rows, cols) = (ROWS as int, COLS as int);
    let ra = readings(a, rows, cols);
    let rb = readings(b, rows, cols);
    if s1 == s2 {
        let m = flat(s1.board());
        let j1 = choose|j: int| 0 <= j < ra.len() && ra[j] == m;
        let j2 = choose|j: int| 0 <= j < rb.len() && rb[j] == m;
        lemma_readings_flags(a, rows, cols, j1);
        lemma_readings_flags(b, rows, cols, j2);
        let (fr1, fc1, tr1) = (j1 % 2 == 1, (j1 / 2) % 2 == 1, j1 >= 4);
        let (fr2, fc2, tr2) = (j2 % 2 == 1, (j2 / 2) % 2 == 1, j2 >= 4);
        lemma_equal_readings_symmetry(b, a, rows, cols, fr1, fc1, tr1, fr2, fc2, tr2);
        let gfr = if tr1 == tr2 {
            fr1 != fr2
        } else {
            fr1 != fc2
        };
        let gfc = if tr1 == tr2 {
            fc1 != fc2
        } else {
            fc1 != fr2
        };
        assert(is_symmetry_of(b, a, rows, cols, gfr, gfc, tr1 != tr2));
    }
    if exists|fr: bool, fc: bool, tr: bool| #[trigger] is_symmetry_of(b, a, rows, cols, fr, fc, tr) {
        let (fr, fc, tr) = choose|fr: bool, fc: bool, tr: bool|
            #[trigger] is_symmetry_of(b, a, rows, cols, fr, fc, tr);
        lemma_moved_readings_members(b, a, rows, cols, fr, fc, tr);
        lemma_symmetry_inverse(b, a, rows, cols, fr, fc, tr);
        if tr {
            lemma_moved_readings_members(a, b, rows, cols, fc, fr, true);
        } else {
            lemma_moved_readings_members(a, b, rows, cols, fr, fc, false);
        }
        lemma_lex_max_same_members(flat(s2.board()), rb, ra);
        lemma_represents_unique(s1, s2, a);
    }
}

/// Step `k` of a walk over `0..end`, upwards or downwards.
pub open spec fn walk(end: int, increasing: bool, k: int) -> int {
    if increasing {
        k
    } else {
        end - 1 - k
    }
}

/// The cells of a grid of `rows` rows of `cols` cells in the order that
/// `transform` reads them: the rows upwards unless the rotation is 1 or 2
/// (modulo 4), the columns upwards unless it is 2 or 3; row by row when the
/// transform is horizontal, else column by column.
pub open spec fn index_order(rows: int, cols: int, transform: Dihedral<4>) -> Seq<(usize, usize)> {
    let row_inc = (transform.rot + 1) % 4 <= 1;
    let col_inc = transform.rot % 4 <= 1;
    if (transform.rot % 2 == 0) != transform.flip {
        Seq::new(
            (rows * cols) as nat,
            |i: int| (walk(rows, row_inc, i / cols) as usize, walk(cols, col_inc, i % cols) as usize),
        )
    } else {
        Seq::new(
            (rows * cols) as nat,
            |i: int| (walk(rows, row_inc, i % rows) as usize, walk(cols, col_inc, i / rows) as usize),
        )
    }
}

/// The `(row, column)` pairs of a grid of `rows` rows of `cols` cells, in the
/// order that `transform` reads them.
fn gen_indices(rows: usize, cols: usize, transform: Dihedral<4>) -> (v: Vec<(usize, usize)>)
    requires
        transform.rot < 255,
    ensures
        v@ == index_order(rows as int, cols as int, transform),
{
    let row_inc = (transform.rot + 1) % 4 <= 1;
    let col_inc = transform.rot % 4 <= 1;
    let horizontal = transform.is_horizontal();
    let outer = if horizontal {
        rows
    } else {
        cols
    };
    let inner = if horizontal {
        cols
    } else {
        rows
    };
    let mut v: Vec<(usize, usize)> = Vec::new();
    let mut a: usize = 0;
    while a < outer
        invariant
            0 <= a <= outer,
            row_inc == ((transform.rot + 1) % 4 <= 1),
            col_inc == (transform.rot % 4 <= 1),
            horizontal == ((transform.rot % 2 == 0) != transform.flip),
            outer == (if horizontal { rows } else { cols }),
            inner == (if horizontal { cols } else { rows }),
            v@.len() == a * inner,
            forall|j: int|
                0 <= j < v@.len() ==> #[trigger] v@[j] == index_order(
                    rows as int,
                    cols as int,
                    transform,
                )[j],
        decreases outer - a,
    {
        let mut k: usize = 0;
        while k < inner
            invariant
                0 <= a < outer,
                0 <= k <= inner,
                row_inc == ((transform.rot + 1) % 4 <= 1),
                col_inc == (transform.rot % 4 <= 1),
                horizontal == ((transform.rot % 2 == 0) != transform.flip),
                outer == (if horizontal { rows } else { cols }),
                inner == (if horizontal { cols } else { rows }),
                v@.len() == a * inner + k,
                forall|j: int|
                    0 <= j < v@.len() ==> #[trigger] v@[j] == index_order(
                        rows as int,
                        cols as int,
                        transform,
                    )[j],
            decreases inner - k,
        {
            let (r, c) = if horizontal {
                (a, k)
            } else {
                (k, a)
            };
            let r = if row_inc {
                r
            } else {
                rows - 1 - r
            };
            let c = if col_inc {
                c
            } else {
                cols - 1 - c
            };
            proof {
                let j = a * inner + k;
                vstd::arithmetic::div_mod::lemma_fundamental_div_mod_converse(
                    j,
                    inner as int,
                    a as int,
                    k as int,
                );
                assert(j < rows * cols) by (nonlinear_arith)
                    requires
                        j == a * inner + k,
                        a < outer,
                        k < inner,
                        (outer == rows && inner == cols) || (outer == cols && inner == rows),
                ;
            }
            v.push((r, c));
            k = k + 1;
        }
        proof {
            assert((a + 1) * inner == a * inner + inner) by (nonlinear_arith);
        }
        a = a + 1;
    }
    proof {
        assert(a * inner == rows * cols) by (nonlinear_arith)
            requires
                a == outer,
                (outer == rows && inner == cols) || (outer == cols && inner == rows),
        ;
        assert(v@ =~= index_order(rows as int, cols as int, transform));
    }
    v
}

/// The direction numbered `i`: 0 is up, 1 down, 2 left, any other number right.
pub open spec fn direction_numbered(i: u8) -> Direction {
    if i == 0 {
        Direction::Up
    } else if i == 1 {
        Direction::Down
    } else if i == 2 {
        Direction::Left
    } else {
        Direction::Right
    }
}

/// The numbers 0 to 3 name the four directions one to one: each direction
/// has exactly one of them. So a number drawn with the same chance for each
/// of `0..=3`, as [`random_direction`] draws it, gives each direction with
/// chance one in four, and every direction can come out.
pub proof fn lemma_directions_numbered_once(d: Direction)
    ensures
        exists|i: u8| i <= 3 && #[trigger] direction_numbered(i) == d,
        forall|i: u8, j: u8|
            i <= 3 && j <= 3 && #[trigger] direction_numbered(i) == d && #[trigger] direction_numbered(j)
                == d ==> i == j,
{
    match d {
        Direction::Up => assert(direction_numbered(0) == d),
        Direction::Down => assert(direction_numbered(1) == d),
        Direction::Left => assert(direction_numbered(2) == d),
        Direction::Right => assert(direction_numbered(3) == d),
    }
}

/// The direction numbered `i`: 0 is up, 1 down, 2 left, any other number right.
pub fn direction_from_index(i: u8) -> (d: Direction)
    ensures
        d == direction_numbered(i),
        d == (if i == 0 {
            Direction::Up
        } else if i == 1 {
            Direction::Down
        } else if i == 2 {
            Direction::Left
        } else {
            Direction::Right
        }),
{
    match i {
        0 => Direction::Up,
        1 => Direction::Down,
        2 => Direction::Left,
        _ => Direction::Right,
    }
}

/// A direction drawn at random, each of the four with the same chance.
pub fn random_direction() -> Direction {
    let mut rng = crate::game::twenty_forty_eight::sampling::thread_rng();
    direction_from_index(crate::game::twenty_forty_eight::sampling::gen_up_to(&mut rng, 3))
}

/// The grid `b` read cell by cell in one of the ways of `reading`.
fn reading_vec<const COLS: usize, const ROWS: usize>(
    board: &[[u8; COLS]; ROWS],
    flip_rows: bool,
    flip_cols: bool,
    transposed: bool,
) -> (v: Vec<u8>)
    requires
        transposed ==> ROWS == COLS,
    ensures
        v@ == reading(grid_of(*board), ROWS as int, COLS as int, flip_rows, flip_cols, transposed),
{
    let ghost b = grid_of(*board);
    let outer = if transposed {
        COLS
    } else {
        ROWS
    };
    let inner = if transposed {
        ROWS
    } else {
        COLS
    };
    let mut v: Vec<u8> = Vec::new();
    let mut a: usize = 0;
    while a < outer
        invariant
            0 <= a <= outer,
            outer == (if transposed { COLS } else { ROWS }),
            inner == (if transposed { ROWS } else { COLS }),
            transposed ==> ROWS == COLS,
            b == grid_of(*board),
            v@.len() == a * inner,
            forall|j: int|
                0 <= j < v@.len() ==> #[trigger] v@[j] == read_at(
                    b,
                    ROWS as int,
                    COLS as int,
                    flip_rows,
                    flip_cols,
                    transposed,
                    j,
                ),
        decreases outer - a,
    {
        let mut k: usize = 0;
        while k < inner
            invariant
                0 <= a < outer,
                0 <= k <= inner,
                outer == (if transposed { COLS } else { ROWS }),
                inner == (if transposed { ROWS } else { COLS }),
                transposed ==> ROWS == COLS,
                b == grid_of(*board),
                v@.len() == a * inner + k,
                forall|j: int|
                    0 <= j < v@.len() ==> #[trigger] v@[j] == read_at(
                        b,
                        ROWS as int,
                        COLS as int,
                        flip_rows,
                        flip_cols,
                        transposed,
                        j,
                    ),
            decreases inner - k,
        {
            let r = if transposed {
                k
            } else {
                a
            };
            let c = if transposed {
                a
            } else {
                k
            };
            let r2 = if flip_rows {
                ROWS - 1 - r
            } else {
                r
            };
            let c2 = if flip_cols {
                COLS - 1 - c
            } else {
                c
            };
            proof {
                let j = a * inner + k;
                vstd::arithmetic::div_mod::lemma_fundamental_div_mod_converse(
                    j,
                    inner as int,
                    a as int,
                    k as int,
                );
            }
            v.push(board[r2][c2]);
            k = k + 1;
        }
        proof {
            assert((a + 1) * inner == a * inner + inner) by (nonlinear_arith);
        }
        a = a + 1;
    }
    proof {
        assert(v@ =~= reading(b, ROWS as int, COLS as int, flip_rows, flip_cols, transposed)) by {
            if transposed {
                assert(COLS * ROWS == ROWS * COLS) by (nonlinear_arith);
            }
        }
    }
    v
}

impl<const COLS: usize, const ROWS: usize> From<[[u8; COLS]; ROWS]> for SymmetricBoard<COLS, ROWS> {
    /// The representative of `board`.
    fn from(board: [[u8; COLS]; ROWS]) -> (r: Self)
        ensures
            r.represents(grid_of(board)),
    {
        let ghost b = grid_of(board);
        let mut max_iter = MaxIter::new();
        max_iter.add_iter(reading_vec(&board, false, false, false));
        max_iter.add_iter(reading_vec(&board, true, false, false));
        max_iter.add_iter(reading_vec(&board, false, true, false));
        max_iter.add_iter(reading_vec(&board, true, true, false));
        if ROWS == COLS {
            max_iter.add_iter(reading_vec(&board, false, false, true));
            max_iter.add_iter(reading_vec(&board, true, false, true));
            max_iter.add_iter(reading_vec(&board, false, true, true));
            max_iter.add_iter(reading_vec(&board, true, true, true));
        }
        proof {
            assert(max_iter@ =~= readings(b, ROWS as int, COLS as int));
        }
        let max = max_iter.collect();
        proof {
            let rs = readings(b, ROWS as int, COLS as int);
            let j = choose|j: int| 0 <= j < rs.len() && rs[j] == max@;
            assert(max@.len() == ROWS * COLS);
        }
        let mut cells = [[0u8; COLS]; ROWS];
        let mut r: usize = 0;
        let mut idx: usize = 0;
        while r < ROWS
            invariant
                0 <= r <= ROWS,
                idx == r * COLS,
                max@.len() == ROWS * COLS,
                forall|i: int, c: int|
                    0 <= i < r && 0 <= c < COLS ==> #[trigger] cells[i][c] == max@[i * COLS + c],
            decreases ROWS - r,
        {
            let mut row = cells[r];
            let mut c: usize = 0;
            while c < COLS
                invariant
                    0 <= r < ROWS,
                    0 <= c <= COLS,
                    idx == r * COLS + c,
                    max@.len() == ROWS * COLS,
                    max.len() == ROWS * COLS,
                    forall|k: int| 0 <= k < c ==> #[trigger] row[k] == max@[r * COLS + k],
                decreases COLS - c,
            {
                proof {
                    assert(r * COLS + c < ROWS * COLS) by (nonlinear_arith)
                        requires
                            r < ROWS,
                            c < COLS,
                    ;
                }
                row[c] = max[idx];
                c = c + 1;
                idx = idx + 1;
            }
            cells[r] = row;
            proof {
                assert((r + 1) * COLS == r * COLS + COLS) by (nonlinear_arith);
            }
            r = r + 1;
        }
        let result = SymmetricBoard { max_board: Cells::from_cells(cells) };
        proof {
            assert(flat(result.max_board) =~= max@) by {
                assert forall|i: int| 0 <= i < ROWS * COLS implies #[trigger] flat(
                    result.max_board,
                )[i] == max@[i] by {
                    {
                        lemma_read_in_grid(ROWS as int, COLS as int, i);
                        let q = i / (COLS as int);
                        let m = i % (COLS as int);
                        vstd::arithmetic::div_mod::lemma_fundamental_div_mod(i, COLS as int);
                        assert(q * COLS + m == i) by (nonlinear_arith)
                            requires
                                i == COLS * q + m,
                        ;
                    }
                }
            }
            assert(result.represents(b));
            lemma_represents_unique(result, representative(board), b);
        }
        result
    }
}

impl<const COLS: usize, const ROWS: usize> vstd::std_specs::convert::FromSpecImpl<[[u8; COLS]; ROWS]> for SymmetricBoard<COLS, ROWS> {
    open spec fn obeys_from_spec() -> bool {
        true
    }

    open spec fn from_spec(v: [[u8; COLS]; ROWS]) -> Self {
        representative(v)
    }
}

impl<const COLS: usize, const ROWS: usize> From<Cells<COLS, ROWS>> for SymmetricBoard<COLS, ROWS> {
    /// The representative of the grid `board`.
    fn from(board: Cells<COLS, ROWS>) -> (r: Self)
        ensures
            r.represents(board@),
    {
        let r = Self::from(board.cells);
        assert(grid_of(board.cells) =~= board@);
        r
    }
}

impl<const COLS: usize, const ROWS: usize> vstd::std_specs::convert::FromSpecImpl<Cells<COLS, ROWS>> for SymmetricBoard<COLS, ROWS> {
    open spec fn obeys_from_spec() -> bool {
        true
    }

    open spec fn from_spec(v: Cells<COLS, ROWS>) -> Self {
        representative(v.cells)
    }
}

impl<const COLS: usize, const ROWS: usize> Default for SymmetricBoard<COLS, ROWS> {
    /// The representative of the empty grid.
    fn default() -> (r: Self)
        ensures
            r == representative([[0u8; COLS]; ROWS]),
    {
        Self::from([[0u8; COLS]; ROWS])
    }
}

} // verus!
