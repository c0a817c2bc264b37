//! The board of the game: a grid of cells, each empty (0) or holding the
//! exponent of a tile.
pub mod fast_swipe;

use self::fast_swipe::{swipe_changed, swipe_is_safe, swipe_keeps_tiles, swiped_row};
use crate::accumulator::fraction::Weighted;
use crate::game::Discrete;
use vstd::bytes::{spec_u128_from_le_bytes, spec_u128_to_le_bytes};
use vstd::prelude::*;

verus! {

broadcast use vstd::array::group_array_axioms;

/// The four directions in which the tiles can be swiped.
#[derive(Debug, Clone, Copy, PartialEq, Eq, Hash)]
pub enum Direction {
    Up,
    Down,
    Left,
    Right,
}

/// The direction that follows `d` when the directions are listed: up, down,
/// left, right.
pub open spec fn next_direction(d: Option<Direction>) -> Option<Direction> {
    match d {
        Some(Direction::Up) => Some(Direction::Down),
        Some(Direction::Down) => Some(Direction::Left),
        Some(Direction::Left) => Some(Direction::Right),
        _ => None,
    }
}

/// The directions, one after the other: up, down, left, right.
#[derive(Debug, Clone)]
struct Directions {
    pub current: Option<Direction>,
}

impl Directions {
    /// The directions from the first.
    fn new() -> (r: Self)
        ensures
            r.current == Some(Direction::Up),
    {
        Directions { current: Some(Direction::Up) }
    }

    /// The current direction, if any is left; the iterator moves on to the next.
    fn next(&mut self) -> (r: Option<Direction>)
        ensures
            r == old(self).current,
            final(self).current == next_direction(old(self).current),
    {
        let current = match self.current {
            Some(d) => d,
            None => return None,
        };
        let next = match current {
            Direction::Up => Some(Direction::Down),
            Direction::Down => Some(Direction::Left),
            Direction::Left => Some(Direction::Right),
            Direction::Right => None,
        };
        self.current = next;
        Some(current)
    }
}

impl Discrete for Direction {
    /// Up, down, left and right, in that order.
    fn iter() -> (r: Vec<Self>)
        ensures
            r@ == seq![Direction::Up, Direction::Down, Direction::Left, Direction::Right],
    {
        let mut directions = Directions::new();
        let mut all: Vec<Direction> = Vec::new();
        let ghost listed = seq![Direction::Up, Direction::Down, Direction::Left, Direction::Right];
        loop
            invariant
                listed == seq![Direction::Up, Direction::Down, Direction::Left, Direction::Right],
                all@.len() <= 4,
                all@ == listed.take(all@.len() as int),
                all@.len() < 4 ==> directions.current == Some(listed[all@.len() as int]),
                all@.len() == 4 ==> directions.current is None,
            ensures
                all@ == listed,
            decreases 4 - all@.len(),
        {
            match directions.next() {
                Some(d) => all.push(d),
                None => {
                    assert(all@ =~= listed.take(4));
                    break;
                },
            }
            proof {
                assert(all@ =~= listed.take(all@.len() as int));
            }
        }
        all
    }
}

/// The weight of a spawn: how likely it is against the other spawns. Never zero.
#[derive(Debug, Clone, Copy)]
pub struct Weight(u8);

impl View for Weight {
    type V = u8;

    closed spec fn view(&self) -> u8 {
        self.0
    }
}

impl Weight {
    #[verifier::type_invariant]
    spec fn is_nonzero(self) -> bool {
        self.0 != 0
    }

    /// The weight `n`, unless `n` is zero.
    pub fn new(n: u8) -> (r: Option<Self>)
        ensures
            r is Some <==> n != 0,
            r matches Some(w) ==> w@ == n,
    {
        if n == 0 {
            None
        } else {
            Some(Weight(n))
        }
    }

    /// The weight as a number.
    pub fn get(self) -> (n: u8)
        ensures
            n == self@,
            n != 0,
    {
        proof {
            use_type_invariant(&self);
        }
        self.0
    }
}

/// One cell of the board: 0 when empty, else the exponent of its tile.
pub type Cell = u8;

/// A grid of `ROWS` rows of `COLS` cells.
#[derive(Copy, Clone, Debug, PartialEq, Eq, Hash)]
pub struct Cells<const COLS: usize, const ROWS: usize> {
    pub cells: [[Cell; COLS]; ROWS],
}

impl<const COLS: usize, const ROWS: usize> View for Cells<COLS, ROWS> {
    type V = Seq<Seq<u8>>;

    /// The grid as its rows.
    open spec fn view(&self) -> Seq<Seq<u8>> {
        Seq::new(ROWS as nat, |r: int| self.cells@[r]@)
    }
}

/// Number of empty cells in a line.
pub open spec fn empty_in(line: Seq<u8>) -> nat
    decreases line.len(),
{
    if line.len() == 0 {
        0
    } else {
        empty_in(line.drop_last()) + if line.last() == 0 { 1nat } else { 0nat }
    }
}

/// Number of empty cells in a grid.
pub open spec fn empty_in_grid(grid: Seq<Seq<u8>>) -> nat
    decreases grid.len(),
{
    if grid.len() == 0 {
        0
    } else {
        empty_in_grid(grid.drop_last()) + empty_in(grid.last())
    }
}

impl<const COLS: usize, const ROWS: usize> Cells<COLS, ROWS> {
    /// The cell at row `r` and column `c`.
    pub open spec fn at(self, r: int, c: int) -> u8 {
        self.cells@[r]@[c]
    }

    /// How many lines a swipe in `dir` moves: rows for left and right, columns
    /// for up and down.
    pub open spec fn line_count(dir: Direction) -> int {
        match dir {
            Direction::Left | Direction::Right => ROWS as int,
            Direction::Up | Direction::Down => COLS as int,
        }
    }

    /// Line `k` as a swipe in `dir` sees it, starting at the wall the tiles move to.
    pub open spec fn line(self, dir: Direction, k: int) -> Seq<u8> {
        match dir {
            Direction::Left => Seq::new(COLS as nat, |c: int| self.at(k, c)),
            Direction::Right => Seq::new(COLS as nat, |c: int| self.at(k, COLS - 1 - c)),
            Direction::Up => Seq::new(ROWS as nat, |r: int| self.at(r, k)),
            Direction::Down => Seq::new(ROWS as nat, |r: int| self.at(ROWS - 1 - r, k)),
        }
    }

    /// The cell at row `r` and column `c` after a swipe in `dir`.
    pub open spec fn swiped_at(self, dir: Direction, r: int, c: int) -> u8 {
        match dir {
            Direction::Left => swiped_row(self.line(dir, r))[c],
            Direction::Right => swiped_row(self.line(dir, r))[COLS - 1 - c],
            Direction::Up => swiped_row(self.line(dir, c))[r],
            Direction::Down => swiped_row(self.line(dir, c))[ROWS - 1 - r],
        }
    }

    /// `after` is this grid swiped in `dir`.
    pub open spec fn is_swiped(self, dir: Direction, after: Self) -> bool {
        forall|r: int, c: int|
            0 <= r < ROWS && 0 <= c < COLS ==> #[trigger] after.at(r, c) == self.swiped_at(dir, r, c)
    }

    /// A swipe in `dir` reports a change: it does so for some line.
    pub open spec fn swipe_moves(self, dir: Direction) -> bool {
        exists|k: int| 0 <= k < Self::line_count(dir) && #[trigger] swipe_changed(self.line(dir, k))
    }

    /// A swipe in `dir` merges no tile into one of exponent 32 or more, and the
    /// merge score of each line fits in a `u32`.
    pub open spec fn can_swipe(self, dir: Direction) -> bool {
        forall|k: int| 0 <= k < Self::line_count(dir) ==> #[trigger] swipe_is_safe(self.line(dir, k))
    }

    /// Number of empty cells.
    pub open spec fn empty_count(self) -> nat {
        empty_in_grid(self@)
    }

    /// Some cell is empty, or two neighbouring cells hold the same tile.
    pub open spec fn spec_has_move(self) -> bool {
        ||| exists|r: int, c: int| 0 <= r < ROWS && 0 <= c < COLS && #[trigger] self.at(r, c) == 0
        ||| exists|r: int, c: int|
            0 <= r < ROWS - 1 && 0 <= c < COLS && #[trigger] self.at(r, c) == self.at(r + 1, c)
        ||| exists|r: int, c: int|
            0 <= r < ROWS && 0 <= c < COLS - 1 && #[trigger] self.at(r, c) == self.at(r, c + 1)
    }

    /// Every cell is empty.
    pub open spec fn is_empty_grid(self) -> bool {
        forall|i: int, j: int| 0 <= i < ROWS && 0 <= j < COLS ==> #[trigger] self.at(i, j) == 0
    }

    /// The empty grid.
    pub closed spec fn empty_grid() -> Self {
        Cells { cells: [[0u8; COLS]; ROWS] }
    }

    /// The empty grid is the only grid whose cells are all empty.
    pub proof fn lemma_empty_grid(grid: Self)
        requires
            grid.is_empty_grid(),
        ensures
            grid == Self::empty_grid(),
    {
        let e = Self::empty_grid();
        assert forall|i: int| 0 <= i < ROWS implies grid.cells@[i] == e.cells@[i] by {
            assert forall|j: int| 0 <= j < COLS implies grid.cells@[i]@[j] == e.cells@[i]@[j] by {
                assert(grid.at(i, j) == 0);
            }
            assert(grid.cells@[i] =~= e.cells@[i]);
        }
        assert(grid.cells =~= e.cells);
    }

    /// The empty grid.
    pub fn new() -> (r: Self)
        ensures
            r.is_empty_grid(),
    {
        Self::from_cells([[0; COLS]; ROWS])
    }

    /// Every cell is empty.
    pub fn is_empty(&self) -> (r: bool)
        ensures
            r == self.is_empty_grid(),
    {
        let mut i: usize = 0;
        while i < ROWS
            invariant
                0 <= i <= ROWS,
                forall|r: int, c: int| 0 <= r < i && 0 <= c < COLS ==> #[trigger] self.at(r, c) == 0,
            decreases ROWS - i,
        {
            let mut j: usize = 0;
            while j < COLS
                invariant
                    0 <= j <= COLS,
                    0 <= i < ROWS,
                    forall|r: int, c: int| 0 <= r < i && 0 <= c < COLS ==> #[trigger] self.at(r, c) == 0,
                    forall|c: int| 0 <= c < j ==> #[trigger] self.at(i as int, c) == 0,
                decreases COLS - j,
            {
                if self.cells[i][j] != 0 {
                    assert(self.at(i as int, j as int) != 0);
                    return false;
                }
                j = j + 1;
            }
            i = i + 1;
        }
        true
    }

    /// The grid with the given rows.
    pub fn from_cells(cells: [[Cell; COLS]; ROWS]) -> (r: Self)
        ensures
            r.cells == cells,
    {
        Self { cells }
    }

    /// Swipes every row towards its first cell. Returns whether a row changed.
    pub fn swipe_left(&mut self) -> (moved: bool)
        requires
            old(self).can_swipe(Direction::Left),
        ensures
            old(self).is_swiped(Direction::Left, *final(self)),
            moved == old(self).swipe_moves(Direction::Left),
    {
        let ghost start = *self;
        let mut moved = false;
        let mut r: usize = 0;
        while r < ROWS
            invariant
                0 <= r <= ROWS,
                start.can_swipe(Direction::Left),
                forall|i: int, j: int|
                    0 <= i < r && 0 <= j < COLS ==> #[trigger] self.at(i, j) == start.swiped_at(
                        Direction::Left,
                        i,
                        j,
                    ),
                forall|i: int, j: int|
                    r <= i < ROWS && 0 <= j < COLS ==> #[trigger] self.at(i, j) == start.at(i, j),
                moved == exists|k: int|
                    0 <= k < r && #[trigger] swipe_changed(start.line(Direction::Left, k)),
            decreases ROWS - r,
        {
            let mut row = self.cells[r];
            proof {
                assert forall|j: int| 0 <= j < COLS implies row@[j] == start.line(
                    Direction::Left,
                    r as int,
                )[j] by {
                    assert(self.at(r as int, j) == start.at(r as int, j));
                }
                assert(row@ =~= start.line(Direction::Left, r as int));
                assert(swipe_is_safe(start.line(Direction::Left, r as int)));
            }
            let row_moved = fast_swipe::swipe_left(&mut row);
            let ghost before = *self;
            self.cells[r] = row;
            proof {
                assert(self.cells@ == before.cells@.update(r as int, row));
            }
            moved = moved || row_moved;
            r = r + 1;
            proof {
                assert forall|i: int, j: int|
                    0 <= i < r && 0 <= j < COLS implies #[trigger] self.at(i, j) == start.swiped_at(
                    Direction::Left,
                    i,
                    j,
                ) by {
                    if i == r - 1 {
                        assert(self.at(i, j) == row@[j]);
                    } else {
                        assert(self.at(i, j) == before.at(i, j));
                    }
                }
                assert forall|i: int, j: int|
                    r <= i < ROWS && 0 <= j < COLS implies #[trigger] self.at(i, j) == start.at(
                    i,
                    j,
                ) by {
                    assert(self.at(i, j) == before.at(i, j));
                }
            }
        }
        moved
    }

    /// Swipes every row towards its last cell. Returns whether a row changed.
    pub fn swipe_right(&mut self) -> (moved: bool)
        requires
            old(self).can_swipe(Direction::Right),
        ensures
            old(self).is_swiped(Direction::Right, *final(self)),
            moved == old(self).swipe_moves(Direction::Right),
    {
        let ghost start = *self;
        let mut moved = false;
        let mut r: usize = 0;
        while r < ROWS
            invariant
                0 <= r <= ROWS,
                start.can_swipe(Direction::Right),
                forall|i: int, j: int|
                    0 <= i < r && 0 <= j < COLS ==> #[trigger] self.at(i, j) == start.swiped_at(
                        Direction::Right,
                        i,
                        j,
                    ),
                forall|i: int, j: int|
                    r <= i < ROWS && 0 <= j < COLS ==> #[trigger] self.at(i, j) == start.at(i, j),
                moved == exists|k: int|
                    0 <= k < r && #[trigger] swipe_changed(start.line(Direction::Right, k)),
            decreases ROWS - r,
        {
            let mut row = self.cells[r];
            proof {
                assert forall|j: int| 0 <= j < COLS implies row@.reverse()[j] == start.line(
                    Direction::Right,
                    r as int,
                )[j] by {
                    assert(self.at(r as int, COLS - 1 - j) == start.at(r as int, COLS - 1 - j));
                }
                assert(row@.reverse() =~= start.line(Direction::Right, r as int));
                assert(swipe_is_safe(start.line(Direction::Right, r as int)));
            }
            let row_moved = fast_swipe::swipe_right(&mut row);
            let ghost before = *self;
            self.cells[r] = row;
            proof {
                assert(self.cells@ == before.cells@.update(r as int, row));
            }
            moved = moved || row_moved;
            r = r + 1;
            proof {
                assert forall|i: int, j: int|
                    0 <= i < r && 0 <= j < COLS implies #[trigger] self.at(i, j) == start.swiped_at(
                    Direction::Right,
                    i,
                    j,
                ) by {
                    if i == r - 1 {
                        fast_swipe::lemma_swiped_row_len(start.line(Direction::Right, i));
                        assert(self.at(i, j) == row@[j]);
                    } else {
                        assert(self.at(i, j) == before.at(i, j));
                    }
                }
                assert forall|i: int, j: int|
                    r <= i < ROWS && 0 <= j < COLS implies #[trigger] self.at(i, j) == start.at(
                    i,
                    j,
                ) by {
                    assert(self.at(i, j) == before.at(i, j));
                }
            }
        }
        moved
    }

    /// Column `i`, from the first row down.
    fn column(&self, i: usize) -> (column: [Cell; ROWS])
        requires
            i < COLS,
        ensures
            forall|j: int| 0 <= j < ROWS ==> #[trigger] column@[j] == self.at(j, i as int),
    {
        let mut column = [0u8; ROWS];
        let mut j: usize = 0;
        while j < ROWS
            invariant
                0 <= j <= ROWS,
                i < COLS,
                forall|k: int| 0 <= k < j ==> #[trigger] column@[k] == self.at(k, i as int),
            decreases ROWS - j,
        {
            column[j] = self.cells[j][i];
            j = j + 1;
        }
        column
    }

    /// Writes `column` into column `i`, from the first row down.
    fn set_column(&mut self, i: usize, column: [Cell; ROWS])
        requires
            i < COLS,
        ensures
            forall|r: int, c: int|
                0 <= r < ROWS && 0 <= c < COLS ==> #[trigger] final(self).at(r, c) == if c == i {
                    column@[r]
                } else {
                    old(self).at(r, c)
                },
    {
        let ghost start = *self;
        let mut j: usize = 0;
        while j < ROWS
            invariant
                0 <= j <= ROWS,
                i < COLS,
                forall|r: int, c: int|
                    0 <= r < ROWS && 0 <= c < COLS ==> #[trigger] self.at(r, c) == if c == i && r
                        < j {
                        column@[r]
                    } else {
                        start.at(r, c)
                    },
            decreases ROWS - j,
        {
            let ghost before = *self;
            let mut row = self.cells[j];
            row[i] = column[j];
            self.cells[j] = row;
            proof {
                assert(self.cells@ == before.cells@.update(j as int, row));
                assert forall|r: int, c: int|
                    0 <= r < ROWS && 0 <= c < COLS implies #[trigger] self.at(r, c) == if c == i
                    && r < j + 1 {
                    column@[r]
                } else {
                    start.at(r, c)
                } by {
                    if r != j {
                        assert(self.at(r, c) == before.at(r, c));
                    } else if c != i {
                        assert(self.at(r, c) == before.at(r, c));
                    }
                }
            }
            j = j + 1;
        }
    }

    /// Swipes every column towards the first row. Returns whether a column changed.
    pub fn swipe_up(&mut self) -> (moved: bool)
        requires
            old(self).can_swipe(Direction::Up),
        ensures
            old(self).is_swiped(Direction::Up, *final(self)),
            moved == old(self).swipe_moves(Direction::Up),
    {
        let ghost start = *self;
        let mut moved = false;
        let mut i: usize = 0;
        while i < COLS
            invariant
                0 <= i <= COLS,
                start.can_swipe(Direction::Up),
                forall|r: int, c: int|
                    0 <= r < ROWS && 0 <= c < i ==> #[trigger] self.at(r, c) == start.swiped_at(
                        Direction::Up,
                        r,
                        c,
                    ),
                forall|r: int, c: int|
                    0 <= r < ROWS && i <= c < COLS ==> #[trigger] self.at(r, c) == start.at(r, c),
                moved == exists|k: int|
                    0 <= k < i && #[trigger] swipe_changed(start.line(Direction::Up, k)),
            decreases COLS - i,
        {
            let mut column = self.column(i);
            proof {
                assert forall|j: int| 0 <= j < ROWS implies column@[j] == start.line(
                    Direction::Up,
                    i as int,
                )[j] by {
                    assert(self.at(j, i as int) == start.at(j, i as int));
                }
                assert(column@ =~= start.line(Direction::Up, i as int));
                assert(swipe_is_safe(start.line(Direction::Up, i as int)));
            }
            let column_moved = fast_swipe::swipe_left(&mut column);
            let ghost before = *self;
            self.set_column(i, column);
            moved = moved || column_moved;
            i = i + 1;
            proof {
                assert forall|r: int, c: int|
                    0 <= r < ROWS && 0 <= c < i implies #[trigger] self.at(r, c) == start.swiped_at(
                    Direction::Up,
                    r,
                    c,
                ) by {
                    if c != i - 1 {
                        assert(self.at(r, c) == before.at(r, c));
                    }
                }
                assert forall|r: int, c: int|
                    0 <= r < ROWS && i <= c < COLS implies #[trigger] self.at(r, c) == start.at(
                    r,
                    c,
                ) by {
                    assert(self.at(r, c) == before.at(r, c));
                }
            }
        }
        moved
    }

    /// Swipes every column towards the last row. Returns whether a column changed.
    pub fn swipe_down(&mut self) -> (moved: bool)
        requires
            old(self).can_swipe(Direction::Down),
        ensures
            old(self).is_swiped(Direction::Down, *final(self)),
            moved == old(self).swipe_moves(Direction::Down),
    {
        let ghost start = *self;
        let mut moved = false;
        let mut i: usize = 0;
        while i < COLS
            invariant
                0 <= i <= COLS,
                start.can_swipe(Direction::Down),
                forall|r: int, c: int|
                    0 <= r < ROWS && 0 <= c < i ==> #[trigger] self.at(r, c) == start.swiped_at(
                        Direction::Down,
                        r,
                        c,
                    ),
                forall|r: int, c: int|
                    0 <= r < ROWS && i <= c < COLS ==> #[trigger] self.at(r, c) == start.at(r, c),
                moved == exists|k: int|
                    0 <= k < i && #[trigger] swipe_changed(start.line(Direction::Down, k)),
            decreases COLS - i,
        {
            let mut column = self.column(i);
            fast_swipe::reverse_row(&mut column);
            proof {
                assert forall|j: int| 0 <= j < ROWS implies column@[j] == start.line(
                    Direction::Down,
                    i as int,
                )[j] by {
                    assert(self.at(ROWS - 1 - j, i as int) == start.at(ROWS - 1 - j, i as int));
                }
                assert(column@ =~= start.line(Direction::Down, i as int));
                assert(swipe_is_safe(start.line(Direction::Down, i as int)));
            }
            let column_moved = fast_swipe::swipe_left(&mut column);
            fast_swipe::reverse_row(&mut column);
            let ghost before = *self;
            self.set_column(i, column);
            moved = moved || column_moved;
            i = i + 1;
            proof {
                assert forall|r: int, c: int|
                    0 <= r < ROWS && 0 <= c < i implies #[trigger] self.at(r, c) == start.swiped_at(
                    Direction::Down,
                    r,
                    c,
                ) by {
                    if c != i - 1 {
                        assert(self.at(r, c) == before.at(r, c));
                    } else {
                        fast_swipe::lemma_swiped_row_len(start.line(Direction::Down, c));
                    }
                }
                assert forall|r: int, c: int|
                    0 <= r < ROWS && i <= c < COLS implies #[trigger] self.at(r, c) == start.at(
                    r,
                    c,
                ) by {
                    assert(self.at(r, c) == before.at(r, c));
                }
            }
        }
        moved
    }

    /// Swipes the tiles in `direction`. Returns whether a line changed.
    pub fn swipe(&mut self, direction: Direction) -> (moved: bool)
        requires
            old(self).can_swipe(direction),
        ensures
            old(self).is_swiped(direction, *final(self)),
            moved == old(self).swipe_moves(direction),
    {
        match direction {
            Direction::Left => self.swipe_left(),
            Direction::Right => self.swipe_right(),
            Direction::Up => self.swipe_up(),
            Direction::Down => self.swipe_down(),
        }
    }

    /// Line `k` as a swipe in `dir` sees it, starting at the wall the tiles
    /// move to.
    pub fn line_cells(&self, dir: Direction, k: usize) -> (line: Vec<u8>)
        requires
            k < Self::line_count(dir),
        ensures
            line@ == self.line(dir, k as int),
    {
        let n = match dir {
            Direction::Left | Direction::Right => COLS,
            Direction::Up | Direction::Down => ROWS,
        };
        let mut line: Vec<u8> = Vec::new();
        let mut i: usize = 0;
        while i < n
            invariant
                i <= n,
                n == self.line(dir, k as int).len(),
                k < Self::line_count(dir),
                line@ == self.line(dir, k as int).take(i as int),
            decreases n - i,
        {
            let cell = match dir {
                Direction::Left => self.cells[k][i],
                Direction::Right => self.cells[k][COLS - 1 - i],
                Direction::Up => self.cells[i][k],
                Direction::Down => self.cells[ROWS - 1 - i][k],
            };
            line.push(cell);
            i = i + 1;
            assert(line@ =~= self.line(dir, k as int).take(i as int));
        }
        assert(line@ =~= self.line(dir, k as int));
        line
    }

    /// Whether a swipe in `dir` is safe, so that [`Cells::swipe`] may be
    /// called: the test of [`Cells::can_swipe`].
    pub fn is_swipe_safe(&self, dir: Direction) -> (r: bool)
        ensures
            r == self.can_swipe(dir),
    {
        let n = match dir {
            Direction::Left | Direction::Right => ROWS,
            Direction::Up | Direction::Down => COLS,
        };
        let mut k: usize = 0;
        while k < n
            invariant
                k <= n,
                n == Self::line_count(dir),
                forall|j: int| 0 <= j < k ==> #[trigger] swipe_is_safe(self.line(dir, j)),
            decreases n - k,
        {
            let line = self.line_cells(dir, k);
            if !self::fast_swipe::row_swipe_is_safe(&line) {
                return false;
            }
            k = k + 1;
        }
        true
    }

    /// The grid swiped in `direction`, or `None` when the swipe changes no line.
    pub fn swiped(self, direction: Direction) -> (r: Option<Self>)
        requires
            self.can_swipe(direction),
        ensures
            r is Some <==> self.swipe_moves(direction),
            r matches Some(after) ==> self.is_swiped(direction, after),
    {
        let mut after = self;
        if after.swipe(direction) {
            Some(after)
        } else {
            None
        }
    }

    /// Number of empty cells.
    pub fn count_empty(&self) -> (n: usize)
        requires
            ROWS * COLS <= usize::MAX,
        ensures
            n == self.empty_count(),
    {
        let mut n: usize = 0;
        let mut r: usize = 0;
        while r < ROWS
            invariant
                0 <= r <= ROWS,
                ROWS * COLS <= usize::MAX,
                n == empty_in_grid(self@.take(r as int)),
                n <= r * COLS,
            decreases ROWS - r,
        {
            let row = self.cells[r];
            let ghost before = n;
            let mut c: usize = 0;
            while c < COLS
                invariant
                    0 <= c <= COLS,
                    0 <= r < ROWS,
                    ROWS * COLS <= usize::MAX,
                    row@ == self@[r as int],
                    n == before + empty_in(row@.take(c as int)),
                    before <= r * COLS,
                    n <= before + c,
                decreases COLS - c,
            {
                proof {
                    assert(row@.take(c + 1).drop_last() =~= row@.take(c as int));
                    assert(r * COLS + c + 1 <= (r + 1) * COLS) by (nonlinear_arith)
                        requires
                            c < COLS,
                    ;
                    assert((r + 1) * COLS <= ROWS * COLS) by (nonlinear_arith)
                        requires
                            r < ROWS,
                    ;
                }
                if row[c] == 0 {
                    n = n + 1;
                }
                c = c + 1;
            }
            proof {
                assert(row@.take(COLS as int) =~= row@);
                assert(self@.take(r + 1).drop_last() =~= self@.take(r as int));
                assert(r * COLS + COLS == (r + 1) * COLS) by (nonlinear_arith);
            }
            r = r + 1;
        }
        proof {
            assert(self@.take(ROWS as int) =~= self@);
        }
        n
    }

    /// Some cell is empty, or two neighbouring cells, in a row or in a column,
    /// hold the same tile.
    pub fn has_move(&self) -> (r: bool)
        requires
            ROWS > 0,
            COLS > 0,
        ensures
            r == self.spec_has_move(),
    {
        let mut i: usize = 0;
        while i < ROWS
            invariant
                0 <= i <= ROWS,
                forall|r: int, c: int| 0 <= r < i && 0 <= c < COLS ==> #[trigger] self.at(r, c) != 0,
            decreases ROWS - i,
        {
            let mut j: usize = 0;
            while j < COLS
                invariant
                    0 <= j <= COLS,
                    0 <= i < ROWS,
                    forall|r: int, c: int|
                        0 <= r < i && 0 <= c < COLS ==> #[trigger] self.at(r, c) != 0,
                    forall|c: int| 0 <= c < j ==> #[trigger] self.at(i as int, c) != 0,
                decreases COLS - j,
            {
                if self.cells[i][j] == 0 {
                    assert(self.at(i as int, j as int) == 0);
                    return true;
                }
                j = j + 1;
            }
            i = i + 1;
        }
        let mut i: usize = 0;
        while i < ROWS - 1
            invariant
                0 <= i <= ROWS - 1,
                ROWS > 0,
                forall|r: int, c: int|
                    0 <= r < i && 0 <= c < COLS ==> #[trigger] self.at(r, c) != self.at(r + 1, c),
            decreases ROWS - 1 - i,
        {
            let mut j: usize = 0;
            while j < COLS
                invariant
                    0 <= j <= COLS,
                    0 <= i < ROWS - 1,
                    ROWS > 0,
                    forall|r: int, c: int|
                        0 <= r < i && 0 <= c < COLS ==> #[trigger] self.at(r, c) != self.at(
                            r + 1,
                            c,
                        ),
                    forall|c: int|
                        0 <= c < j ==> #[trigger] self.at(i as int, c) != self.at(i + 1, c),
                decreases COLS - j,
            {
                if self.cells[i][j] == self.cells[i + 1][j] {
                    assert(self.at(i as int, j as int) == self.at(i + 1, j as int));
                    return true;
                }
                j = j + 1;
            }
            i = i + 1;
        }
        let mut i: usize = 0;
        while i < ROWS
            invariant
                0 <= i <= ROWS,
                COLS > 0,
                forall|r: int, c: int|
                    0 <= r < i && 0 <= c < COLS - 1 ==> #[trigger] self.at(r, c) != self.at(r, c + 1),
            decreases ROWS - i,
        {
            let mut j: usize = 0;
            while j < COLS - 1
                invariant
                    0 <= j <= COLS - 1,
                    0 <= i < ROWS,
                    COLS > 0,
                    forall|r: int, c: int|
                        0 <= r < i && 0 <= c < COLS - 1 ==> #[trigger] self.at(r, c) != self.at(
                            r,
                            c + 1,
                        ),
                    forall|c: int|
                        0 <= c < j ==> #[trigger] self.at(i as int, c) != self.at(i as int, c + 1),
                decreases COLS - 1 - j,
            {
                if self.cells[i][j] == self.cells[i][j + 1] {
                    assert(self.at(i as int, j as int) == self.at(i as int, j + 1));
                    return true;
                }
                j = j + 1;
            }
            i = i + 1;
        }
        false
    }

    /// No move is left: no cell is empty and no two neighbouring cells hold the
    /// same tile.
    pub fn is_lost(&self) -> (r: bool)
        requires
            ROWS > 0,
            COLS > 0,
        ensures
            r == !self.spec_has_move(),
    {
        !self.has_move()
    }

    /// The grid with rows and columns exchanged.
    pub fn transposed(self) -> (t: Cells<ROWS, COLS>)
        ensures
            forall|r: int, c: int| 0 <= r < COLS && 0 <= c < ROWS ==> #[trigger] t.at(r, c) == self.at(c, r),
    {
        let mut transposed = [[0u8; ROWS]; COLS];
        let mut col: usize = 0;
        while col < COLS
            invariant
                0 <= col <= COLS,
                forall|r: int, c: int|
                    0 <= r < col && 0 <= c < ROWS ==> #[trigger] transposed@[r]@[c] == self.at(c, r),
            decreases COLS - col,
        {
            let column = self.column(col);
            let ghost before = transposed;
            transposed[col] = column;
            proof {
                assert(transposed@ == before@.update(col as int, column));
                assert forall|r: int, c: int|
                    0 <= r < col + 1 && 0 <= c < ROWS implies #[trigger] transposed@[r]@[c] == self.at(c, r) by {
                    if r < col {
                        assert(transposed@[r] == before@[r]);
                    }
                }
            }
            col = col + 1;
        }
        Cells::from_cells(transposed)
    }

    /// The columns, from the first.
    pub fn columns(self) -> (columns: Vec<[Cell; ROWS]>)
        ensures
            columns.len() == COLS,
            forall|i: int, j: int| 0 <= i < COLS && 0 <= j < ROWS ==> #[trigger] columns@[i]@[j] == self.at(j, i),
    {
        let mut columns: Vec<[Cell; ROWS]> = Vec::new();
        let mut i: usize = 0;
        while i < COLS
            invariant
                0 <= i <= COLS,
                columns.len() == i,
                forall|k: int, j: int| 0 <= k < i && 0 <= j < ROWS ==> #[trigger] columns@[k]@[j] == self.at(j, k),
            decreases COLS - i,
        {
            columns.push(self.column(i));
            i = i + 1;
        }
        columns
    }

    /// The rows, from the first.
    pub fn rows(self) -> (rows: Vec<[Cell; COLS]>)
        ensures
            rows.len() == ROWS,
            forall|i: int| 0 <= i < ROWS ==> #[trigger] rows@[i] == self.cells@[i],
    {
        let mut rows: Vec<[Cell; COLS]> = Vec::new();
        let mut i: usize = 0;
        while i < ROWS
            invariant
                0 <= i <= ROWS,
                rows.len() == i,
                forall|k: int| 0 <= k < i ==> #[trigger] rows@[k] == self.cells@[k],
            decreases ROWS - i,
        {
            rows.push(self.cells[i]);
            i = i + 1;
        }
        rows
    }
}

/// The character a cell is shown as: `.` when empty, the digit of an
/// exponent up to 9, then the lower-case letters from `a` for 10 on.
pub open spec fn cell_char(cell: u8) -> char {
    if cell == 0 {
        '.'
    } else if cell <= 9 {
        ((cell + 48) as u8) as char
    } else {
        ((cell - 10 + 97) as u8) as char
    }
}

/// A row as text: each cell's character followed by a space.
pub open spec fn row_text(row: Seq<u8>) -> Seq<char>
    decreases row.len(),
{
    if row.len() == 0 {
        Seq::empty()
    } else {
        row_text(row.drop_last()) + seq![cell_char(row.last()), ' ']
    }
}

/// A grid as text: each row as text, followed by a line break.
pub open spec fn grid_text(grid: Seq<Seq<u8>>) -> Seq<char>
    decreases grid.len(),
{
    if grid.len() == 0 {
        Seq::empty()
    } else {
        grid_text(grid.drop_last()) + row_text(grid.last()) + seq!['\n']
    }
}

/// `String: FromIterator<char>`: the string of the given characters, in order.
#[verifier::external_body]
pub(crate) fn string_from_chars(chars: Vec<char>) -> (s: String)
    ensures
        s@ == chars@,
{
    chars.into_iter().collect()
}

impl<const COLS: usize, const ROWS: usize> Cells<COLS, ROWS> {
    /// Every cell holds at most `m`.
    pub open spec fn cells_at_most(self, m: u8) -> bool {
        forall|r: int, c: int| 0 <= r < ROWS && 0 <= c < COLS ==> #[trigger] self.at(r, c) <= m
    }

    /// The grid as text, one line per row: `.` for an empty cell, the digit of
    /// an exponent up to 9, then the letters from `a` for 10 on, each
    /// followed by a space. Exponents above 168 have no letter.
    pub fn render(&self) -> (text: String)
        requires
            self.cells_at_most(168),
        ensures
            text@ == grid_text(self@),
    {
        let mut chars: Vec<char> = Vec::new();
        let mut i: usize = 0;
        while i < ROWS
            invariant
                0 <= i <= ROWS,
                self.cells_at_most(168),
                chars@ == grid_text(self@.take(i as int)),
            decreases ROWS - i,
        {
            let ghost before = chars@;
            let mut j: usize = 0;
            while j < COLS
                invariant
                    0 <= j <= COLS,
                    0 <= i < ROWS,
                    self.cells_at_most(168),
                    chars@ == before + row_text(self@[i as int].take(j as int)),
                decreases COLS - j,
            {
                let cell = self.cells[i][j];
                assert(cell == self.at(i as int, j as int));
                let ch = if cell == 0 {
                    '.'
                } else if cell <= 9 {
                    (cell + 48) as char
                } else {
                    (cell - 10 + 97) as char
                };
                chars.push(ch);
                chars.push(' ');
                proof {
                    let row = self@[i as int];
                    assert(row.take(j + 1).drop_last() =~= row.take(j as int));
                    assert(row.take(j + 1).last() == cell);
                }
                j = j + 1;
            }
            chars.push('\n');
            proof {
                assert(self@[i as int].take(COLS as int) =~= self@[i as int]);
                assert(self@.take(i + 1).drop_last() =~= self@.take(i as int));
                assert(self@.take(i + 1).last() == self@[i as int]);
            }
            i = i + 1;
        }
        proof {
            assert(self@.take(ROWS as int) =~= self@);
        }
        string_from_chars(chars)
    }
}

impl<const COLS: usize, const ROWS: usize> Cells<COLS, ROWS> {
    /// No line of a swipe in `dir` merges two tiles of exponent 255 into an
    /// empty cell.
    pub open spec fn keeps_tiles(self, dir: Direction) -> bool {
        forall|k: int| 0 <= k < Self::line_count(dir) ==> #[trigger] swipe_keeps_tiles(self.line(dir, k))
    }

    /// No swipe, in any direction, merges two tiles of exponent 255.
    pub open spec fn keeps_tiles_all(self) -> bool {
        &&& self.keeps_tiles(Direction::Up)
        &&& self.keeps_tiles(Direction::Down)
        &&& self.keeps_tiles(Direction::Left)
        &&& self.keeps_tiles(Direction::Right)
    }

    /// On a grid with at least one tile, a move is left (an empty cell, or two
    /// equal neighbouring tiles) exactly when some swipe changes the grid:
    /// the game is lost exactly when no swipe does anything. This holds where
    /// no swipe merges two tiles of exponent 255 into an empty cell.
    pub proof fn lemma_has_move_iff_some_swipe_moves(self)
        requires
            ROWS > 0,
            COLS > 0,
            !self.is_empty_grid(),
            self.keeps_tiles_all(),
        ensures
            self.spec_has_move() <==> exists|dir: Direction| #[trigger] self.swipe_moves(dir),
    {
        if self.spec_has_move() {
            if exists|r: int, c: int| 0 <= r < ROWS && 0 <= c < COLS && #[trigger] self.at(r, c) == 0 {
                let (r0, c0) = choose|r: int, c: int|
                    0 <= r < ROWS && 0 <= c < COLS && #[trigger] self.at(r, c) == 0;
                let (r1, c1) = choose|r: int, c: int|
                    0 <= r < ROWS && 0 <= c < COLS && !(#[trigger] self.at(r, c) == 0);
                if exists|c: int| 0 <= c < COLS && #[trigger] self.at(r0, c) != 0 {
                    let c = choose|c: int| 0 <= c < COLS && #[trigger] self.at(r0, c) != 0;
                    if c0 < c {
                        let line = self.line(Direction::Left, r0);
                        assert(swipe_keeps_tiles(line));
                        fast_swipe::lemma_gap_before_tile_changes(line, c0, c);
                        assert(self.swipe_moves(Direction::Left));
                    } else {
                        let line = self.line(Direction::Right, r0);
                        assert(swipe_keeps_tiles(line));
                        assert(line[COLS - 1 - c0] == 0);
                        assert(line[COLS - 1 - c] != 0);
                        fast_swipe::lemma_gap_before_tile_changes(line, COLS - 1 - c0, COLS - 1 - c);
                        assert(self.swipe_moves(Direction::Right));
                    }
                } else {
                    assert(self.at(r0, c1) == 0);
                    if r0 < r1 {
                        let line = self.line(Direction::Up, c1);
                        assert(swipe_keeps_tiles(line));
                        fast_swipe::lemma_gap_before_tile_changes(line, r0, r1);
                        assert(self.swipe_moves(Direction::Up));
                    } else {
                        let line = self.line(Direction::Down, c1);
                        assert(swipe_keeps_tiles(line));
                        assert(line[ROWS - 1 - r0] == 0);
                        assert(line[ROWS - 1 - r1] != 0);
                        fast_swipe::lemma_gap_before_tile_changes(line, ROWS - 1 - r0, ROWS - 1 - r1);
                        assert(self.swipe_moves(Direction::Down));
                    }
                }
            } else if exists|r: int, c: int|
                0 <= r < ROWS - 1 && 0 <= c < COLS && #[trigger] self.at(r, c) == self.at(r + 1, c) {
                let (r, c) = choose|r: int, c: int|
                    0 <= r < ROWS - 1 && 0 <= c < COLS && #[trigger] self.at(r, c) == self.at(r + 1, c);
                assert(self.at(r, c) != 0);
                let line = self.line(Direction::Up, c);
                assert(swipe_keeps_tiles(line));
                assert(line[r] == line[r + 1]);
                fast_swipe::lemma_equal_neighbours_change(line, r);
                assert(self.swipe_moves(Direction::Up));
            } else {
                let (r, c) = choose|r: int, c: int|
                    0 <= r < ROWS && 0 <= c < COLS - 1 && #[trigger] self.at(r, c) == self.at(r, c + 1);
                assert(self.at(r, c) != 0);
                let line = self.line(Direction::Left, r);
                assert(swipe_keeps_tiles(line));
                assert(line[c] == line[c + 1]);
                fast_swipe::lemma_equal_neighbours_change(line, c);
                assert(self.swipe_moves(Direction::Left));
            }
        } else {
            assert forall|dir: Direction| !#[trigger] self.swipe_moves(dir) by {
                assert forall|k: int| 0 <= k < Self::line_count(dir) implies !#[trigger] swipe_changed(
                    self.line(dir, k),
                ) by {
                    let line = self.line(dir, k);
                    assert forall|i: int| 0 <= i < line.len() implies line[i] != 0 by {
                        match dir {
                            Direction::Left => assert(self.at(k, i) != 0),
                            Direction::Right => assert(self.at(k, COLS - 1 - i) != 0),
                            Direction::Up => assert(self.at(i, k) != 0),
                            Direction::Down => assert(self.at(ROWS - 1 - i, k) != 0),
                        }
                    }
                    assert forall|i: int, j: int|
                        #![trigger line[i], line[j]]
                        0 <= i && j == i + 1 && j < line.len() implies line[i] != line[j] by {
                        match dir {
                            Direction::Left => assert(self.at(k, i) != self.at(k, i + 1)),
                            Direction::Right => assert(self.at(k, COLS - 2 - i) != self.at(k, COLS - 1 - i)),
                            Direction::Up => assert(self.at(i, k) != self.at(i + 1, k)),
                            Direction::Down => assert(self.at(ROWS - 2 - i, k) != self.at(ROWS - 1 - i, k)),
                        }
                    }
                    fast_swipe::lemma_full_distinct_unchanged(line);
                }
            }
        }
    }

    /// Each line of a swiped grid is the swiped line.
    proof fn lemma_swiped_lines(self, dir: Direction, after: Self)
        requires
            self.is_swiped(dir, after),
        ensures
            forall|k: int|
                0 <= k < Self::line_count(dir) ==> #[trigger] after.line(dir, k) == swiped_row(
                    self.line(dir, k),
                ),
    {
        assert forall|k: int| 0 <= k < Self::line_count(dir) implies #[trigger] after.line(dir, k)
            == swiped_row(self.line(dir, k)) by {
            fast_swipe::lemma_swiped_row_len(self.line(dir, k));
            let a = after.line(dir, k);
            let b = swiped_row(self.line(dir, k));
            assert forall|i: int| 0 <= i < a.len() implies a[i] == b[i] by {
                match dir {
                    Direction::Left => {
                        assert(after.at(k, i) == self.swiped_at(dir, k, i));
                    },
                    Direction::Right => {
                        assert(after.at(k, COLS - 1 - i) == self.swiped_at(dir, k, COLS - 1 - i));
                    },
                    Direction::Up => {
                        assert(after.at(i, k) == self.swiped_at(dir, i, k));
                    },
                    Direction::Down => {
                        assert(after.at(ROWS - 1 - i, k) == self.swiped_at(dir, ROWS - 1 - i, k));
                    },
                }
            }
            assert(a =~= b);
        }
    }

    /// A swipe reports a move exactly when it changes the grid, unless two
    /// tiles of exponent 255 merge into an empty cell.
    pub proof fn lemma_swipe_moves_iff_changed(self, dir: Direction, after: Self)
        requires
            self.is_swiped(dir, after),
            self.keeps_tiles(dir),
        ensures
            self.swipe_moves(dir) <==> after@ != self@,
    {
        self.lemma_swiped_lines(dir, after);
        if self.swipe_moves(dir) {
            let k = choose|k: int| 0 <= k < Self::line_count(dir) && #[trigger] swipe_changed(self.line(dir, k));
            assert(swipe_keeps_tiles(self.line(dir, k)));
            fast_swipe::lemma_swipe_changed_iff_row_changed(self.line(dir, k));
            let a = after.line(dir, k);
            let b = self.line(dir, k);
            assert(a != b);
            assert(!(a =~= b));
            let i = choose|i: int| 0 <= i < a.len() && a[i] != b[i];
            let (r, c) = match dir {
                Direction::Left => (k, i),
                Direction::Right => (k, COLS - 1 - i),
                Direction::Up => (i, k),
                Direction::Down => (ROWS - 1 - i, k),
            };
            assert(after.at(r, c) != self.at(r, c));
            assert(after@[r][c] != self@[r][c]);
        }
        if after@ != self@ {
            assert(!(after@ =~= self@));
            let r = choose|r: int| 0 <= r < ROWS && after@[r] != self@[r];
            assert(!(after@[r] =~= self@[r]));
            let c = choose|c: int| 0 <= c < COLS && after@[r][c] != self@[r][c];
            assert(after.at(r, c) != self.at(r, c));
            let (k, i) = match dir {
                Direction::Left => (r, c),
                Direction::Right => (r, COLS - 1 - c),
                Direction::Up => (c, r),
                Direction::Down => (c, ROWS - 1 - r),
            };
            assert(after.line(dir, k)[i] != self.line(dir, k)[i]);
            assert(swipe_keeps_tiles(self.line(dir, k)));
            fast_swipe::lemma_swipe_changed_iff_row_changed(self.line(dir, k));
            assert(swipe_changed(self.line(dir, k)));
        }
    }
}

impl<const COLS: usize, const ROWS: usize> From<[[Cell; COLS]; ROWS]> for Cells<COLS, ROWS> {
    /// The grid with the given rows.
    fn from(cells: [[Cell; COLS]; ROWS]) -> (r: Self) {
        Self { cells }
    }
}

impl<const COLS: usize, const ROWS: usize> vstd::std_specs::convert::FromSpecImpl<[[Cell; COLS]; ROWS]> for Cells<COLS, ROWS> {
    open spec fn obeys_from_spec() -> bool {
        true
    }

    open spec fn from_spec(v: [[Cell; COLS]; ROWS]) -> Self {
        Cells { cells: v }
    }
}

impl<const COLS: usize, const ROWS: usize> From<Cells<COLS, ROWS>> for [[Cell; COLS]; ROWS] {
    /// The rows of the grid.
    fn from(board: Cells<COLS, ROWS>) -> (r: Self) {
        board.cells
    }
}

impl<const COLS: usize, const ROWS: usize> vstd::std_specs::convert::FromSpecImpl<Cells<COLS, ROWS>> for [[Cell; COLS]; ROWS] {
    open spec fn obeys_from_spec() -> bool {
        true
    }

    open spec fn from_spec(v: Cells<COLS, ROWS>) -> Self {
        v.cells
    }
}

impl<const COLS: usize, const ROWS: usize> Default for Cells<COLS, ROWS> {
    /// The empty grid.
    fn default() -> (r: Self)
        ensures
            r.is_empty_grid(),
    {
        Self::new()
    }
}

impl<const COLS: usize, const ROWS: usize> Cells<COLS, ROWS> {
    /// The grid with the cell at row `r` and column `c` set to `v`.
    pub open spec fn with_at(self, r: int, c: int, v: u8) -> Seq<Seq<u8>> {
        self@.update(r, self@[r].update(c, v))
    }

    /// The spawns in the first `n` cells in row-major order: for each empty cell,
    /// a tile of exponent 1 with weight 2, then a tile of exponent 2 with weight 1.
    pub open spec fn spawns_upto(self, n: int) -> Seq<(Seq<Seq<u8>>, u8)>
        decreases n,
    {
        if n <= 0 {
            Seq::empty()
        } else {
            let prev = self.spawns_upto(n - 1);
            let r = (n - 1) / (COLS as int);
            let c = (n - 1) % (COLS as int);
            if self.at(r, c) == 0 {
                prev + seq![(self.with_at(r, c, 1), 2u8), (self.with_at(r, c, 2), 1u8)]
            } else {
                prev
            }
        }
    }

    /// Every spawn on this grid: for each empty cell in row-major order, the
    /// grid with a tile of exponent 1 there (weight 2), then with a tile of
    /// exponent 2 there (weight 1).
    pub fn spawns(&self) -> (spawns: Vec<(Self, u8)>)
        requires
            ROWS * COLS <= usize::MAX,
        ensures
            spawns@.len() == self.spawns_upto(ROWS * COLS).len(),
            forall|k: int|
                0 <= k < spawns@.len() ==> (#[trigger] spawns@[k]).0@ == self.spawns_upto(
                    ROWS * COLS,
                )[k].0 && spawns@[k].1 == self.spawns_upto(ROWS * COLS)[k].1,
    {
        self.into_spawns()
    }

    /// Every spawn on this grid, as [`Cells::spawns`] lists them.
    pub fn into_spawns(self) -> (spawns: Vec<(Self, u8)>)
        requires
            ROWS * COLS <= usize::MAX,
        ensures
            spawns@.len() == self.spawns_upto(ROWS * COLS).len(),
            forall|k: int|
                0 <= k < spawns@.len() ==> (#[trigger] spawns@[k]).0@ == self.spawns_upto(
                    ROWS * COLS,
                )[k].0 && spawns@[k].1 == self.spawns_upto(ROWS * COLS)[k].1,
    {
        let mut spawns: Vec<(Self, u8)> = Vec::new();
        let mut i: usize = 0;
        while i < ROWS
            invariant
                0 <= i <= ROWS,
                ROWS * COLS <= usize::MAX,
                spawns@.len() == self.spawns_upto(i * COLS).len(),
                forall|k: int|
                    0 <= k < spawns@.len() ==> (#[trigger] spawns@[k]).0@ == self.spawns_upto(
                        i * COLS,
                    )[k].0 && spawns@[k].1 == self.spawns_upto(i * COLS)[k].1,
            decreases ROWS - i,
        {
            let mut j: usize = 0;
            while j < COLS
                invariant
                    0 <= j <= COLS,
                    0 <= i < ROWS,
                    ROWS * COLS <= usize::MAX,
                    spawns@.len() == self.spawns_upto(i * COLS + j).len(),
                    forall|k: int|
                        0 <= k < spawns@.len() ==> (#[trigger] spawns@[k]).0@ == self.spawns_upto(
                            i * COLS + j,
                        )[k].0 && spawns@[k].1 == self.spawns_upto(i * COLS + j)[k].1,
                decreases COLS - j,
            {
                proof {
                    let n = i * COLS + j;
                    vstd::arithmetic::div_mod::lemma_fundamental_div_mod_converse(
                        n,
                        COLS as int,
                        i as int,
                        j as int,
                    );
                }
                if self.cells[i][j] == 0 {
                    let mut one = self;
                    let mut row = one.cells[i];
                    row[j] = 1;
                    one.cells[i] = row;
                    let mut two = self;
                    let mut row = two.cells[i];
                    row[j] = 2;
                    two.cells[i] = row;
                    proof {
                        assert(one@ =~= self.with_at(i as int, j as int, 1));
                        assert(two@ =~= self.with_at(i as int, j as int, 2));
                    }
                    spawns.push((one, 2));
                    spawns.push((two, 1));
                }
                j = j + 1;
            }
            proof {
                assert(i * COLS + COLS == (i + 1) * COLS) by (nonlinear_arith);
            }
            i = i + 1;
        }
        spawns
    }
}

/// Exponent of the tile that step `q` of [`Spawns`] places, on a grid of `n` cells.
pub open spec fn spawn_tile(q: int, n: int) -> u8 {
    if q < n {
        2
    } else {
        1
    }
}

/// Weight of the spawn at step `q` of [`Spawns`], on a grid of `n` cells.
pub open spec fn spawn_weight(q: int, n: int) -> u8 {
    if q < n {
        1
    } else {
        2
    }
}

/// The spawns of a grid, one after the other: a tile of exponent 2 (weight 1)
/// in each empty cell in row-major order, then a tile of exponent 1 (weight 2)
/// in each empty cell.
#[derive(Debug)]
pub struct Spawns<const COLS: usize, const ROWS: usize> {
    cells: Cells<COLS, ROWS>,
    mask: Cells<COLS, ROWS>,
}

impl<const COLS: usize, const ROWS: usize> Cells<COLS, ROWS> {
    /// The cell at index `p` in row-major order.
    pub open spec fn lane(self, p: int) -> u8 {
        self.at(p / (COLS as int), p % (COLS as int))
    }
}

impl<const COLS: usize, const ROWS: usize> Spawns<COLS, ROWS> {
    /// The mask marks step `q`: the cell `q` modulo the number of cells holds the
    /// tile of that step, and every other cell is 0; after the last step every
    /// cell is 0.
    spec fn mask_marks(mask: Cells<COLS, ROWS>, q: int) -> bool {
        let n = ROWS * COLS;
        forall|p: int|
            0 <= p < n ==> #[trigger] mask.lane(p) == if q < 2 * n && p == q % n {
                spawn_tile(q, n)
            } else {
                0
            }
    }

    /// The iterator is in a state that some step describes.
    pub closed spec fn wf(self) -> bool {
        exists|q: int| 0 <= q <= 2 * (ROWS * COLS) && #[trigger] Self::mask_marks(self.mask, q)
    }

    /// The next step: 0 at the start, twice the number of cells at the end.
    pub closed spec fn step(self) -> int {
        choose|q: int| 0 <= q <= 2 * (ROWS * COLS) && #[trigger] Self::mask_marks(self.mask, q)
    }

    /// The grid whose spawns are listed.
    pub closed spec fn grid(self) -> Cells<COLS, ROWS> {
        self.cells
    }

    /// The spawns of `cells`, from the first.
    pub fn new(cells: Cells<COLS, ROWS>) -> (spawns: Self)
        requires
            ROWS > 0,
            COLS > 0,
        ensures
            spawns.wf(),
            spawns.step() == 0,
            spawns.grid() == cells,
    {
        let mut mask = Cells::new();
        let ghost empty = mask;
        let mut row = mask.cells[0];
        row[0] = 2;
        mask.cells[0] = row;
        let spawns = Spawns { cells, mask };
        proof {
            assert(mask.cells@ == empty.cells@.update(0, row));
            assert forall|r: int, c: int|
                0 <= r < ROWS && 0 <= c < COLS implies #[trigger] mask.at(r, c) == if r == 0 && c
                == 0 {
                2u8
            } else {
                0u8
            } by {
                assert(empty.at(r, c) == 0);
            }
            let n = ROWS * COLS;
            assert(0 < n) by (nonlinear_arith)
                requires
                    ROWS > 0,
                    COLS > 0,
                    n == ROWS * COLS,
            ;
            assert forall|p: int| 0 <= p < n implies #[trigger] mask.lane(p) == if 0 < 2 * n && p
                == 0int % n {
                spawn_tile(0, n)
            } else {
                0
            } by {
                Self::lemma_lane_in_grid(p);
                vstd::arithmetic::div_mod::lemma_small_mod(0, n as nat);
                if p == 0 {
                    vstd::arithmetic::div_mod::lemma_small_mod(0, COLS as nat);
                    vstd::arithmetic::div_mod::lemma_div_of0(COLS as int);
                } else {
                    vstd::arithmetic::div_mod::lemma_fundamental_div_mod(p, COLS as int);
                    if p / (COLS as int) == 0 {
                        vstd::arithmetic::mul::lemma_mul_basics(COLS as int);
                    }
                }
            }
            assert(Self::mask_marks(mask, 0));
            assert(Self::mask_marks(spawns.mask, 0));
            Self::lemma_step_unique(mask, 0);
        }
        spawns
    }

    /// No spawn at all.
    pub fn empty() -> (spawns: Self)
        ensures
            spawns.wf(),
            spawns.step() == 2 * (ROWS * COLS),
    {
        let spawns = Spawns { cells: Cells::new(), mask: Cells::new() };
        proof {
            let n = ROWS * COLS;
            assert forall|p: int| 0 <= p < n implies #[trigger] spawns.mask.lane(p) == 0 by {
                Self::lemma_lane_in_grid(p);
            }
            assert(Self::mask_marks(spawns.mask, 2 * n));
            Self::lemma_step_unique(spawns.mask, 2 * n);
        }
        spawns
    }

    proof fn lemma_step_lane(q: int, n: int)
        requires
            0 <= q < 2 * n,
        ensures
            q % n == if q < n {
                q
            } else {
                q - n
            },
    {
        if q < n {
            vstd::arithmetic::div_mod::lemma_small_mod(q as nat, n as nat);
        } else {
            vstd::arithmetic::div_mod::lemma_fundamental_div_mod_converse(q, n, 1, q - n);
        }
    }

    proof fn lemma_lane_in_grid(p: int)
        requires
            0 <= p < ROWS * COLS,
        ensures
            COLS > 0,
            0 <= p / (COLS as int) < ROWS,
            0 <= p % (COLS as int) < COLS,
    {
        assert(COLS > 0) by (nonlinear_arith)
            requires
                0 <= p < ROWS * COLS,
        ;
        vstd::arithmetic::div_mod::lemma_div_pos_is_pos(p, COLS as int);
        vstd::arithmetic::div_mod::lemma_mod_pos_bound(p, COLS as int);
        vstd::arithmetic::div_mod::lemma_fundamental_div_mod(p, COLS as int);
        let q = p / (COLS as int);
        let r = p % (COLS as int);
        assert(q < ROWS) by (nonlinear_arith)
            requires
                p == COLS * q + r,
                0 <= r,
                p < ROWS * COLS,
                COLS > 0,
        ;
    }

    proof fn lemma_step_unique(mask: Cells<COLS, ROWS>, q: int)
        requires
            0 <= q <= 2 * (ROWS * COLS),
            Self::mask_marks(mask, q),
        ensures
            forall|q2: int|
                0 <= q2 <= 2 * (ROWS * COLS) && #[trigger] Self::mask_marks(mask, q2) ==> q2 == q,
    {
        let n = ROWS * COLS;
        assert forall|q2: int|
            0 <= q2 <= 2 * (ROWS * COLS) && #[trigger] Self::mask_marks(mask, q2) implies q2 == q by {
            if q2 != q {
                if q < 2 * n {
                    let p = q % n;
                    assert(mask.lane(p) == spawn_tile(q, n));
                    Self::lemma_step_lane(q, n);
                    if q2 < 2 * n {
                        Self::lemma_step_lane(q2, n);
                        assert(q2 % n == p);
                    }
                } else {
                    let p = q2 % n;
                    Self::lemma_step_lane(q2, n);
                    assert(mask.lane(p) == spawn_tile(q2, n));
                }
            }
        }
    }
}

impl Cells<4, 4> {
    /// The cell at index `p` in row-major order.
    fn get_lane(&self, p: usize) -> (v: u8)
        requires
            p < 16,
        ensures
            v == self.lane(p as int),
    {
        self.cells[p / 4][p % 4]
    }

    /// Sets the cell at index `p` in row-major order.
    fn set_lane(&mut self, p: usize, v: u8)
        requires
            p < 16,
        ensures
            forall|k: int|
                0 <= k < 16 ==> #[trigger] final(self).lane(k) == if k == p {
                    v
                } else {
                    old(self).lane(k)
                },
            forall|r: int, c: int|
                0 <= r < 4 && 0 <= c < 4 ==> #[trigger] final(self).at(r, c) == if r * 4 + c == p {
                    v
                } else {
                    old(self).at(r, c)
                },
    {
        let ghost before = *self;
        let mut row = self.cells[p / 4];
        row[p % 4] = v;
        self.cells[p / 4] = row;
        proof {
            assert(self.cells@ == before.cells@.update((p / 4) as int, row));
            assert forall|r: int, c: int| 0 <= r < 4 && 0 <= c < 4 implies #[trigger] self.at(r, c) == if r * 4 + c == p {
                v
            } else {
                before.at(r, c)
            } by {
                if r != p / 4 {
                    assert(self.at(r, c) == before.at(r, c));
                }
            }
        }
    }
}

impl Spawns<4, 4> {
    /// The index of the cell that the mask marks, if the steps are not over.
    fn marked_lane(&self) -> (p: Option<usize>)
        requires
            self.wf(),
        ensures
            match p {
                None => self.step() == 32,
                Some(p) => self.step() < 32 && p == self.step() % 16,
            },
    {
        let ghost q = self.step();
        proof {
            Self::lemma_step_unique(self.mask, q);
            if q < 32 {
                Self::lemma_step_lane(q, 16);
            }
        }
        let mut p: usize = 0;
        while p < 16
            invariant
                0 <= p <= 16,
                self.wf(),
                q == self.step(),
                Self::mask_marks(self.mask, q),
                0 <= q <= 32,
                q < 32 ==> p <= q % 16,
            decreases 16 - p,
        {
            if self.mask.get_lane(p) != 0 {
                return Some(p);
            }
            p = p + 1;
        }
        None
    }

    /// The next spawn: the grid with a tile in the next empty cell that the
    /// steps reach, and its weight. `None` once the steps are over.
    pub fn next(&mut self) -> (r: Option<Weighted<Cells<4, 4>, Weight>>)
        requires
            old(self).wf(),
        ensures
            final(self).wf(),
            final(self).grid() == old(self).grid(),
            match r {
                None => {
                    &&& final(self).step() == 32
                    &&& forall|q: int|
                        old(self).step() <= q < 32 ==> #[trigger] old(self).grid().lane(q % 16) != 0
                },
                Some(w) => {
                    let q = final(self).step() - 1;
                    &&& old(self).step() <= q < 32
                    &&& forall|q2: int|
                        old(self).step() <= q2 < q ==> #[trigger] old(self).grid().lane(q2 % 16) != 0
                    &&& old(self).grid().lane(q % 16) == 0
                    &&& w.value@ == old(self).grid().with_at(
                        (q % 16) / 4,
                        (q % 16) % 4,
                        spawn_tile(q, 16),
                    )
                    &&& w.weight@ == spawn_weight(q, 16)
                },
            },
            match r {
                None => spawn_steps(old(self).grid(), old(self).step()).len() == 0,
                Some(w) => spawn_steps(old(self).grid(), old(self).step()) == seq![(w.value@, w.weight@)]
                    + spawn_steps(final(self).grid(), final(self).step()),
            },
    {
        let ghost start = *self;
        assert(0 <= start.step());
        loop
            invariant
                start == *old(self),
                0 <= start.step(),
                self.wf(),
                self.grid() == start.grid(),
                start.step() <= self.step() <= 32,
                forall|q2: int|
                    start.step() <= q2 < self.step() ==> #[trigger] start.grid().lane(q2 % 16) != 0,
            decreases 32 - self.step(),
        {
            let ghost q = self.step();
            let p = match self.marked_lane() {
                None => {
                    proof {
                        lemma_spawn_steps_skip(start.grid(), start.step(), 32);
                    }
                    return None;
                },
                Some(p) => p,
            };
            proof {
                Self::lemma_step_unique(self.mask, q);
                Self::lemma_step_lane(q, 16);
            }
            let v = self.mask.get_lane(p);
            let weight = if v == 1 { 2 } else { 1 };
            let cell = self.cells.get_lane(p);
            let mut value = self.cells;
            value.set_lane(p, cell | v);
            let ghost before = self.mask;
            self.mask.set_lane(p, 0);
            if p == 15 {
                if v == 2 {
                    self.mask.set_lane(0, 1);
                }
            } else {
                self.mask.set_lane(p + 1, v);
            }
            proof {
                assert forall|k: int| 0 <= k < 16 implies #[trigger] self.mask.lane(k) == if q + 1 < 32 && k
                    == (q + 1) % 16 {
                    spawn_tile(q + 1, 16)
                } else {
                    0
                } by {
                    if q + 1 < 32 {
                        Self::lemma_step_lane(q + 1, 16);
                    }
                }
                assert(Self::mask_marks(self.mask, q + 1));
                Self::lemma_step_unique(self.mask, q + 1);
            }
            if cell == 0 {
                proof {
                    assert(0u8 | v == v) by (bit_vector);
                    assert(value@ =~= start.grid().with_at((p / 4) as int, (p % 4) as int, v as u8)) by {
                        assert forall|r: int| 0 <= r < 4 implies value@[r] =~= start.grid().with_at((p / 4) as int, (p % 4) as int, v as u8)[r] by {
                            assert forall|c: int| 0 <= c < 4 implies value@[r][c] == start.grid().with_at((p / 4) as int, (p % 4) as int, v as u8)[r][c] by {
                                assert(value.at(r, c) == value@[r][c]);
                            }
                        }
                    }
                    lemma_spawn_steps_skip(start.grid(), start.step(), q);
                }
                match Weight::new(weight) {
                    Some(weight) => return Some(Weighted { value, weight }),
                    None => return None,
                }
            }
        }
    }
}

impl<const COLS: usize, const ROWS: usize> Cells<COLS, ROWS> {
    /// The cells in row-major order.
    pub open spec fn flat(self) -> Seq<u8> {
        Seq::new((ROWS * COLS) as nat, |p: int| self.lane(p))
    }
}

impl Cells<4, 4> {
    /// The cells as a number: the cell at index `p` in row-major order is byte
    /// `p` of the number, counting from the least significant.
    pub fn as_u128(self) -> (x: u128)
        ensures
            x == spec_u128_from_le_bytes(self.flat()),
    {
        let mut bytes = [0u8; 16];
        let mut p: usize = 0;
        while p < 16
            invariant
                0 <= p <= 16,
                forall|k: int| 0 <= k < p ==> #[trigger] bytes@[k] == self.lane(k),
            decreases 16 - p,
        {
            bytes[p] = self.get_lane(p);
            p = p + 1;
        }
        assert(bytes@ =~= self.flat());
        vstd::bytes::u128_from_le_bytes(bytes.as_slice())
    }
}

/// The number of cells of a grid is not 16, so a `u128` cannot fill it.
#[derive(Debug)]
pub struct SizeMismatch<const COLS: usize, const ROWS: usize>;

impl<const COLS: usize, const ROWS: usize> Cells<COLS, ROWS> {
    /// The grid whose cells, in row-major order, are the bytes of `value` from
    /// the least significant; an error when the grid does not have 16 cells.
    pub fn try_from(value: u128) -> (r: Result<Self, SizeMismatch<COLS, ROWS>>)
        requires
            ROWS * COLS <= usize::MAX,
        ensures
            r is Ok <==> ROWS * COLS == 16,
            r matches Ok(cells) ==> cells.flat() == spec_u128_to_le_bytes(value),
    {
        let bytes = vstd::bytes::u128_to_le_bytes(value);
        if COLS * ROWS == 16 {
            let mut cells = [[0u8; COLS]; ROWS];
            let mut r: usize = 0;
            while r < ROWS
                invariant
                    0 <= r <= ROWS,
                    ROWS * COLS == 16,
                    bytes@.len() == 16,
                    forall|i: int, j: int|
                        0 <= i < r && 0 <= j < COLS ==> #[trigger] cells@[i]@[j] == bytes@[i * COLS + j],
                decreases ROWS - r,
            {
                let mut row = [0u8; COLS];
                let mut c: usize = 0;
                while c < COLS
                    invariant
                        0 <= c <= COLS,
                        0 <= r < ROWS,
                        ROWS * COLS == 16,
                        bytes@.len() == 16,
                        forall|j: int| 0 <= j < c ==> #[trigger] row@[j] == bytes@[r * COLS + j],
                    decreases COLS - c,
                {
                    proof {
                        assert(r * COLS + c < 16) by (nonlinear_arith)
                            requires
                                r < ROWS,
                                c < COLS,
                                ROWS * COLS == 16,
                        ;
                    }
                    row[c] = bytes[r * COLS + c];
                    c = c + 1;
                }
                let ghost before = cells;
                cells[r] = row;
                proof {
                    assert(cells@ == before@.update(r as int, row));
                    assert forall|i: int, j: int| 0 <= i < r + 1 && 0 <= j < COLS implies #[trigger] cells@[i]@[j] == bytes@[i * COLS + j] by {
                        if i < r {
                            assert(cells@[i] == before@[i]);
                        }
                    }
                }
                r = r + 1;
            }
            let grid = Self::from_cells(cells);
            proof {
                assert forall|p: int| 0 <= p < 16 implies #[trigger] grid.lane(p) == bytes@[p] by {
                    Spawns::<COLS, ROWS>::lemma_lane_in_grid(p);
                    vstd::arithmetic::div_mod::lemma_fundamental_div_mod(p, COLS as int);
                    assert(p == (p / (COLS as int)) * COLS + p % (COLS as int)) by (nonlinear_arith)
                        requires
                            p == COLS * (p / (COLS as int)) + p % (COLS as int),
                    ;
                }
                assert(grid.flat() =~= bytes@);
            }
            Ok(grid)
        } else {
            Err(SizeMismatch)
        }
    }
}

/// Reading a 4 by 4 grid as a number and back gives the same grid.
pub proof fn lemma_u128_round_trip(cells: Cells<4, 4>)
    ensures
        spec_u128_to_le_bytes(spec_u128_from_le_bytes(cells.flat())) == cells.flat(),
{
    vstd::bytes::lemma_auto_spec_u128_to_from_le_bytes();
}

/// Filling a 4 by 4 grid from a number and reading it back gives the number.
pub proof fn lemma_u128_round_trip_number(value: u128)
    ensures
        spec_u128_from_le_bytes(spec_u128_to_le_bytes(value)) == value,
{
    vstd::bytes::lemma_auto_spec_u128_to_from_le_bytes();
    assert(spec_u128_to_le_bytes(value).len() == 16);
}

/// The spawns that [`Spawns`] lists on a 4 by 4 grid from step `from` on.
pub open spec fn spawn_steps(grid: Cells<4, 4>, from: int) -> Seq<(Seq<Seq<u8>>, u8)>
    decreases 32 - from,
{
    if from >= 32 {
        Seq::empty()
    } else {
        let rest = spawn_steps(grid, from + 1);
        let p = from % 16;
        if grid.lane(p) == 0 {
            seq![(grid.with_at(p / 4, p % 4, spawn_tile(from, 16)), spawn_weight(from, 16))] + rest
        } else {
            rest
        }
    }
}

proof fn lemma_spawn_steps_skip(grid: Cells<4, 4>, from: int, to: int)
    requires
        0 <= from <= to <= 32,
        forall|q: int| from <= q < to ==> #[trigger] grid.lane(q % 16) != 0,
    ensures
        spawn_steps(grid, from) == spawn_steps(grid, to),
    decreases to - from,
{
    if from < to {
        assert(grid.lane(from % 16) != 0);
        lemma_spawn_steps_skip(grid, from + 1, to);
    }
}

/// The spawns of tile `tile` with weight `weight` in the empty cells `lo` to
/// `hi` (excluded) of a 4 by 4 grid, in row-major order.
pub open spec fn spawns_in_range(grid: Cells<4, 4>, lo: int, hi: int, tile: u8, weight: u8) -> Seq<
    (Seq<Seq<u8>>, u8),
>
    decreases hi - lo,
{
    if lo >= hi {
        Seq::empty()
    } else {
        let rest = spawns_in_range(grid, lo + 1, hi, tile, weight);
        if grid.lane(lo) == 0 {
            seq![(grid.with_at(lo / 4, lo % 4, tile), weight)] + rest
        } else {
            rest
        }
    }
}

/// A range of spawns grows at its end one cell at a time.
proof fn lemma_spawns_in_range_push(grid: Cells<4, 4>, lo: int, hi: int, tile: u8, weight: u8)
    requires
        lo <= hi,
    ensures
        spawns_in_range(grid, lo, hi + 1, tile, weight) == spawns_in_range(grid, lo, hi, tile, weight)
            + if grid.lane(hi) == 0 {
            seq![(grid.with_at(hi / 4, hi % 4, tile), weight)]
        } else {
            Seq::empty()
        },
    decreases hi - lo,
{
    if lo < hi {
        lemma_spawns_in_range_push(grid, lo + 1, hi, tile, weight);
        if grid.lane(lo) == 0 {
            assert(seq![(grid.with_at(lo / 4, lo % 4, tile), weight)] + spawns_in_range(
                grid,
                lo + 1,
                hi + 1,
                tile,
                weight,
            ) =~= seq![(grid.with_at(lo / 4, lo % 4, tile), weight)] + spawns_in_range(
                grid,
                lo + 1,
                hi,
                tile,
                weight,
            ) + if grid.lane(hi) == 0 {
                seq![(grid.with_at(hi / 4, hi % 4, tile), weight)]
            } else {
                Seq::empty()
            });
        }
    } else {
        assert(spawns_in_range(grid, hi + 1, hi + 1, tile, weight) =~= Seq::<(Seq<Seq<u8>>, u8)>::empty());
        if grid.lane(hi) == 0 {
            assert(spawns_in_range(grid, hi, hi + 1, tile, weight) =~= seq![
                (grid.with_at(hi / 4, hi % 4, tile), weight),
            ]);
        }
        assert(spawns_in_range(grid, lo, hi, tile, weight) =~= Seq::<(Seq<Seq<u8>>, u8)>::empty());
    }
}

/// The steps of [`Spawns`] from `q` below 16 on: the tiles of exponent 2
/// from cell `q` on, then all those of exponent 1.
proof fn lemma_spawn_steps_ranges(grid: Cells<4, 4>, q: int)
    requires
        0 <= q <= 16,
    ensures
        spawn_steps(grid, q) == spawns_in_range(grid, q, 16, 2, 1) + spawns_in_range(grid, 0, 16, 1, 2),
    decreases 16 - q,
{
    if q < 16 {
        lemma_spawn_steps_ranges(grid, q + 1);
        assert(q % 16 == q);
        if grid.lane(q) == 0 {
            assert(seq![(grid.with_at(q / 4, q % 4, 2), 1u8)] + spawns_in_range(grid, q + 1, 16, 2, 1)
                + spawns_in_range(grid, 0, 16, 1, 2) =~= seq![(grid.with_at(q / 4, q % 4, 2), 1u8)]
                + (spawns_in_range(grid, q + 1, 16, 2, 1) + spawns_in_range(grid, 0, 16, 1, 2)));
        }
    } else {
        lemma_spawn_steps_high(grid, 0);
        assert(spawns_in_range(grid, 16, 16, 2, 1) =~= Seq::<(Seq<Seq<u8>>, u8)>::empty());
        assert(spawn_steps(grid, 16) =~= spawns_in_range(grid, 16, 16, 2, 1) + spawns_in_range(grid, 0, 16, 1, 2));
    }
}

/// From step `16 + q` on, [`Spawns`] lists the tiles of exponent 1 from cell
/// `q` on.
proof fn lemma_spawn_steps_high(grid: Cells<4, 4>, q: int)
    requires
        0 <= q <= 16,
    ensures
        spawn_steps(grid, 16 + q) == spawns_in_range(grid, q, 16, 1, 2),
    decreases 16 - q,
{
    if q < 16 {
        lemma_spawn_steps_high(grid, q + 1);
        assert((16 + q) % 16 == q);
    }
}

/// The spawns of a grid, as [`Cells::spawns`] lists them, are those of tile 1
/// and those of tile 2, in another order.
proof fn lemma_spawns_upto_ranges(grid: Cells<4, 4>, n: int)
    requires
        0 <= n <= 16,
    ensures
        grid.spawns_upto(n).to_multiset() == spawns_in_range(grid, 0, n, 2, 1).to_multiset().add(
            spawns_in_range(grid, 0, n, 1, 2).to_multiset(),
        ),
    decreases n,
{
    broadcast use vstd::seq_lib::lemma_multiset_commutative;

    if n == 0 {
        assert(spawns_in_range(grid, 0, 0, 2, 1) =~= Seq::<(Seq<Seq<u8>>, u8)>::empty());
        assert(spawns_in_range(grid, 0, 0, 1, 2) =~= Seq::<(Seq<Seq<u8>>, u8)>::empty());
        assert(grid.spawns_upto(0) =~= Seq::<(Seq<Seq<u8>>, u8)>::empty());
        assert(grid.spawns_upto(0).to_multiset() =~= vstd::multiset::Multiset::empty()) by {
            broadcast use vstd::seq_lib::group_to_multiset_ensures;

        }
    } else {
        lemma_spawns_upto_ranges(grid, n - 1);
        lemma_spawns_in_range_push(grid, 0, n - 1, 2, 1);
        lemma_spawns_in_range_push(grid, 0, n - 1, 1, 2);
        let p = n - 1;
        assert(p / 4 == (n - 1) / (4usize as int));
        assert(grid.lane(p) == grid.at((n - 1) / (4usize as int), (n - 1) % (4usize as int)));
        let prev = grid.spawns_upto(n - 1);
        let twos = spawns_in_range(grid, 0, n - 1, 2, 1);
        let ones = spawns_in_range(grid, 0, n - 1, 1, 2);
        if grid.lane(p) == 0 {
            let one = (grid.with_at(p / 4, p % 4, 1), 2u8);
            let two = (grid.with_at(p / 4, p % 4, 2), 1u8);
            assert(grid.spawns_upto(n) == prev + seq![one, two]);
            assert((prev + seq![one, two]).to_multiset() =~= prev.to_multiset().add(
                seq![one, two].to_multiset(),
            ));
            assert((twos + seq![two]).to_multiset() =~= twos.to_multiset().add(seq![two].to_multiset()));
            assert((ones + seq![one]).to_multiset() =~= ones.to_multiset().add(seq![one].to_multiset()));
            assert((seq![one] + seq![two]).to_multiset() =~= seq![one].to_multiset().add(
                seq![two].to_multiset(),
            ));
            assert(seq![one] + seq![two] =~= seq![one, two]);
            assert(grid.spawns_upto(n).to_multiset() =~= (twos + seq![two]).to_multiset().add(
                (ones + seq![one]).to_multiset(),
            ));
        } else {
            assert(twos + Seq::empty() =~= twos);
            assert(ones + Seq::empty() =~= ones);
        }
    }
}

/// [`Spawns`] lists the same spawns as [`Cells::spawns`], with the same
/// weights, in another order: first every tile of exponent 2, then every tile
/// of exponent 1.
pub proof fn lemma_spawns_same_as_listed(grid: Cells<4, 4>)
    ensures
        spawn_steps(grid, 0).to_multiset() == grid.spawns_upto(16).to_multiset(),
{
    broadcast use vstd::seq_lib::lemma_multiset_commutative;

    lemma_spawn_steps_ranges(grid, 0);
    lemma_spawns_upto_ranges(grid, 16);
    assert(spawns_in_range(grid, 0, 16, 2, 1).to_multiset().add(spawns_in_range(grid, 0, 16, 1, 2).to_multiset())
        =~= (spawns_in_range(grid, 0, 16, 2, 1) + spawns_in_range(grid, 0, 16, 1, 2)).to_multiset());
}

/// Calling [`Spawns::next`] on `Spawns::new(grid)` again and again gives the
/// spawns of `spawn_steps(grid, 0)` in order, one per call (each call takes
/// the head of what is left, by its contract), then `None` on every later
/// call, since nothing is left after the last step. There are two of them per
/// empty cell, and as a multiset they are exactly the spawns of
/// [`Cells::spawns`]: in each empty cell the tile of exponent 1 with weight 2
/// and the tile of exponent 2 with weight 1.
pub proof fn lemma_spawns_iterate_all(grid: Cells<4, 4>)
    ensures
        spawn_steps(grid, 0).len() == 2 * grid.empty_count(),
        spawn_steps(grid, 0).to_multiset() == grid.spawns_upto(16).to_multiset(),
        spawn_steps(grid, 32).len() == 0,
{
    broadcast use vstd::seq_lib::to_multiset_len;

    lemma_spawns_same_as_listed(grid);
    grid.lemma_spawns_upto(16);
    grid.lemma_empty_lanes_is_empty_count();
    assert(spawn_steps(grid, 0).len() == spawn_steps(grid, 0).to_multiset().len());
    assert(grid.spawns_upto(16).len() == grid.spawns_upto(16).to_multiset().len());
}

impl Spawns<4, 4> {
    /// All the spawns that are left, in order.
    pub fn collect(self) -> (all: Vec<Weighted<Cells<4, 4>, Weight>>)
        requires
            self.wf(),
        ensures
            all@.len() == spawn_steps(self.grid(), self.step()).len(),
            forall|k: int|
                0 <= k < all@.len() ==> (#[trigger] all@[k]).value@ == spawn_steps(
                    self.grid(),
                    self.step(),
                )[k].0 && all@[k].weight@ == spawn_steps(self.grid(), self.step())[k].1,
    {
        let ghost grid = self.grid();
        let ghost from = self.step();
        let mut spawns = self;
        let mut all: Vec<Weighted<Cells<4, 4>, Weight>> = Vec::new();
        loop
            invariant
                grid == self.grid(),
                from == self.step(),
                spawns.wf(),
                spawns.grid() == grid,
                from <= spawns.step() <= 32,
                0 <= from,
                all@.len() + spawn_steps(grid, spawns.step()).len() == spawn_steps(grid, from).len(),
                forall|k: int|
                    0 <= k < all@.len() ==> (#[trigger] all@[k]).value@ == spawn_steps(grid, from)[k].0
                        && all@[k].weight@ == spawn_steps(grid, from)[k].1,
                forall|k: int|
                    0 <= k < spawn_steps(grid, spawns.step()).len() ==> #[trigger] spawn_steps(
                        grid,
                        spawns.step(),
                    )[k] == spawn_steps(grid, from)[all@.len() + k],
            decreases 32 - spawns.step(),
        {
            let ghost before = spawns.step();
            match spawns.next() {
                None => {
                    proof {
                        lemma_spawn_steps_skip(grid, before, 32);
                    }
                    return all;
                },
                Some(w) => {
                    proof {
                        let q = spawns.step() - 1;
                        lemma_spawn_steps_skip(grid, before, q);
                        let head = spawn_steps(grid, q);
                        assert(head == seq![(w.value@, w.weight@)] + spawn_steps(grid, q + 1));
                        assert(head[0] == spawn_steps(grid, before)[0]);
                        assert forall|k: int|
                            0 <= k < spawn_steps(grid, spawns.step()).len() implies #[trigger] spawn_steps(
                            grid,
                            spawns.step(),
                        )[k] == spawn_steps(grid, from)[all@.len() + 1 + k] by {
                            assert(spawn_steps(grid, spawns.step())[k] == head[k + 1]);
                            assert(head[k + 1] == spawn_steps(grid, before)[k + 1]);
                        }
                        assert(spawn_steps(grid, from)[all@.len() as int] == (w.value@, w.weight@));
                    }
                    all.push(w);
                },
            }
        }
    }
}

impl<const COLS: usize, const ROWS: usize> Cells<COLS, ROWS> {
    /// Number of empty cells among the first `n` in row-major order.
    pub open spec fn empty_lanes(self, n: int) -> nat
        decreases n,
    {
        if n <= 0 {
            0
        } else {
            self.empty_lanes(n - 1) + if self.lane(n - 1) == 0 { 1nat } else { 0nat }
        }
    }

    proof fn lemma_lane_at(r: int, c: int)
        requires
            0 <= r,
            0 <= c < COLS,
        ensures
            (r * COLS + c) / (COLS as int) == r,
            (r * COLS + c) % (COLS as int) == c,
    {
        vstd::arithmetic::div_mod::lemma_fundamental_div_mod_converse(r * COLS + c, COLS as int, r, c);
    }

    /// Counting the empty cells row by row or in row-major order gives the same.
    pub proof fn lemma_empty_lanes_is_empty_count(self)
        ensures
            self.empty_lanes(ROWS * COLS) == self.empty_count(),
    {
        assert forall|r: int| 0 <= r <= ROWS implies #[trigger] self.empty_lanes(r * COLS) == empty_in_grid(
            self@.take(r),
        ) by {
            self.lemma_rows_prefix(r);
        }
        assert(self@.take(ROWS as int) =~= self@);
    }

    proof fn lemma_rows_prefix(self, r: int)
        requires
            0 <= r <= ROWS,
        ensures
            self.empty_lanes(r * COLS) == empty_in_grid(self@.take(r)),
        decreases r,
    {
        if r > 0 {
            self.lemma_rows_prefix(r - 1);
            assert(self@.take(r).drop_last() =~= self@.take(r - 1));
            let row = self@[r - 1];
            assert forall|j: int| 0 <= j <= COLS implies #[trigger] self.empty_lanes((r - 1) * COLS + j)
                == self.empty_lanes((r - 1) * COLS) + empty_in(row.take(j)) by {
                self.lemma_row_prefix(r - 1, j);
            }
            assert(row.take(COLS as int) =~= row);
            assert((r - 1) * COLS + COLS == r * COLS) by (nonlinear_arith);
        } else {
            assert(self@.take(0) =~= Seq::<Seq<u8>>::empty());
        }
    }

    proof fn lemma_row_prefix(self, r: int, j: int)
        requires
            0 <= r < ROWS,
            0 <= j <= COLS,
        ensures
            self.empty_lanes(r * COLS + j) == self.empty_lanes(r * COLS) + empty_in(self@[r].take(j)),
        decreases j,
    {
        if j > 0 {
            self.lemma_row_prefix(r, j - 1);
            Self::lemma_lane_at(r, j - 1);
            assert(self@[r].take(j).drop_last() =~= self@[r].take(j - 1));
            assert(r * COLS + j - 1 >= 0) by (nonlinear_arith)
                requires
                    r >= 0,
                    j >= 1,
            ;
        } else {
            assert(self@[r].take(0) =~= Seq::<u8>::empty());
        }
    }

    /// The spawns in the first `n` cells: two per empty cell, with weights 2 and
    /// 1, so that the weights sum to three times the number of empty cells.
    pub proof fn lemma_spawns_upto(self, n: int)
        ensures
            self.spawns_upto(n).len() == 2 * self.empty_lanes(n),
            forall|k: int|
                0 <= k < self.spawns_upto(n).len() ==> 1 <= #[trigger] self.spawns_upto(n)[k].1 <= 2,
            crate::game::twenty_forty_eight::sampling::weight_sum(
                self.spawns_upto(n).map_values(|s: (Seq<Seq<u8>>, u8)| s.1),
            ) == 3 * self.empty_lanes(n),
        decreases n,
    {
        if n > 0 {
            self.lemma_spawns_upto(n - 1);
            let prev = self.spawns_upto(n - 1).map_values(|s: (Seq<Seq<u8>>, u8)| s.1);
            let cur = self.spawns_upto(n).map_values(|s: (Seq<Seq<u8>>, u8)| s.1);
            let r = (n - 1) / (COLS as int);
            let c = (n - 1) % (COLS as int);
            if self.at(r, c) == 0 {
                assert(cur.drop_last().drop_last() =~= prev);
                assert(cur.drop_last().last() == 2);
                assert(cur.last() == 1);
                assert(crate::game::twenty_forty_eight::sampling::weight_sum(cur.drop_last())
                    == crate::game::twenty_forty_eight::sampling::weight_sum(prev) + 2);
            } else {
                assert(cur =~= prev);
            }
        } else {
            assert(self.spawns_upto(n).map_values(|s: (Seq<Seq<u8>>, u8)| s.1) =~= Seq::<u8>::empty());
        }
    }

    /// The grid with a tile spawned at random: one of [`Cells::spawns`], drawn
    /// with a chance proportional to its weight. The weights are added in a
    /// `u8`, so at most 85 cells may be empty.
    pub fn random_spawn(&self) -> (r: Self)
        requires
            ROWS * COLS <= usize::MAX,
            0 < self.empty_count() <= 85,
        ensures
            exists|k: int|
                0 <= k < self.spawns_upto(ROWS * COLS).len() && r@ == (#[trigger] self.spawns_upto(
                    ROWS * COLS,
                )[k]).0,
    {
        let options = self.spawns();
        let mut weights: Vec<u8> = Vec::new();
        let mut k: usize = 0;
        while k < options.len()
            invariant
                0 <= k <= options@.len(),
                weights@ == options@.take(k as int).map_values(|o: (Self, u8)| o.1),
            decreases options@.len() - k,
        {
            weights.push(options[k].1);
            k = k + 1;
            proof {
                assert(options@.take(k as int).drop_last() =~= options@.take(k - 1));
            }
        }
        proof {
            let n = (ROWS * COLS) as int;
            self.lemma_empty_lanes_is_empty_count();
            self.lemma_spawns_upto(n);
            assert(options@.take(options@.len() as int) =~= options@);
            assert(weights@ =~= self.spawns_upto(n).map_values(|s: (Seq<Seq<u8>>, u8)| s.1));
        }
        let index = match crate::game::twenty_forty_eight::sampling::sample_weighted(&weights) {
            Ok(index) => index,
            Err(_) => 0,
        };
        options[index].0
    }
}

impl<const COLS: usize, const ROWS: usize> Cells<COLS, ROWS> {
    /// The empty cells among the first `n` cells in row-major order, as
    /// `(row, column)` pairs.
    pub open spec fn empty_positions_upto(self, n: int) -> Seq<(usize, usize)>
        decreases n,
    {
        if n <= 0 {
            Seq::empty()
        } else {
            let prev = self.empty_positions_upto(n - 1);
            let r = (n - 1) / (COLS as int);
            let c = (n - 1) % (COLS as int);
            if self.at(r, c) == 0 {
                prev.push((r as usize, c as usize))
            } else {
                prev
            }
        }
    }

    /// The empty cells in row-major order.
    pub open spec fn empty_positions(self) -> Seq<(usize, usize)> {
        self.empty_positions_upto(ROWS * COLS)
    }

    /// The two spawns at `pos`: the grid with a tile of exponent 1 there
    /// (weight 2), then with a tile of exponent 2 there (weight 1).
    pub open spec fn spawn_pair(self, pos: (usize, usize)) -> Seq<(Seq<Seq<u8>>, u8)> {
        seq![
            (self.with_at(pos.0 as int, pos.1 as int, 1), 2u8),
            (self.with_at(pos.0 as int, pos.1 as int, 2), 1u8),
        ]
    }

    /// For each position in `ps`, in order: the grid with a tile of exponent 1
    /// there (weight 2), then with a tile of exponent 2 there (weight 1).
    pub open spec fn spawns_at_positions(self, ps: Seq<(usize, usize)>) -> Seq<(Seq<Seq<u8>>, u8)>
        decreases ps.len(),
    {
        if ps.len() == 0 {
            Seq::empty()
        } else {
            self.spawns_at_positions(ps.drop_last()) + self.spawn_pair(ps.last())
        }
    }

    /// The grids with their weights, as plain values.
    pub open spec fn weighted_grids(spawns: Seq<(Self, u8)>) -> Seq<(Seq<Seq<u8>>, u8)> {
        spawns.map_values(|s: (Self, u8)| (s.0@, s.1))
    }

    /// The empty cells, in row-major order.
    pub fn empty_position_list(&self) -> (ps: Vec<(usize, usize)>)
        ensures
            ps@ == self.empty_positions(),
    {
        let mut ps: Vec<(usize, usize)> = Vec::new();
        let mut i: usize = 0;
        while i < ROWS
            invariant
                0 <= i <= ROWS,
                ps@ == self.empty_positions_upto(i * COLS),
            decreases ROWS - i,
        {
            let mut j: usize = 0;
            while j < COLS
                invariant
                    0 <= j <= COLS,
                    0 <= i < ROWS,
                    ps@ == self.empty_positions_upto(i * COLS + j),
                decreases COLS - j,
            {
                proof {
                    vstd::arithmetic::div_mod::lemma_fundamental_div_mod_converse(
                        i * COLS + j,
                        COLS as int,
                        i as int,
                        j as int,
                    );
                }
                if self.cells[i][j] == 0 {
                    ps.push((i, j));
                }
                j = j + 1;
            }
            proof {
                assert(i * COLS + COLS == (i + 1) * COLS) by (nonlinear_arith);
            }
            i = i + 1;
        }
        ps
    }

    /// The spawns at the given positions: for each, in order, the grid with a
    /// tile of exponent 1 there (weight 2), then with a tile of exponent 2
    /// there (weight 1).
    pub fn spawns_at(self, positions: &Vec<(usize, usize)>) -> (spawns: Vec<(Self, u8)>)
        requires
            forall|k: int|
                0 <= k < positions@.len() ==> (#[trigger] positions@[k]).0 < ROWS && positions@[k].1
                    < COLS,
        ensures
            Self::weighted_grids(spawns@) == self.spawns_at_positions(positions@),
    {
        let mut spawns: Vec<(Self, u8)> = Vec::new();
        let mut k: usize = 0;
        while k < positions.len()
            invariant
                0 <= k <= positions@.len(),
                forall|q: int|
                    0 <= q < positions@.len() ==> (#[trigger] positions@[q]).0 < ROWS
                        && positions@[q].1 < COLS,
                Self::weighted_grids(spawns@) == self.spawns_at_positions(positions@.take(k as int)),
            decreases positions@.len() - k,
        {
            let (i, j) = positions[k];
            let mut one = self;
            let mut row = one.cells[i];
            row[j] = 1;
            one.cells[i] = row;
            let mut two = self;
            let mut row = two.cells[i];
            row[j] = 2;
            two.cells[i] = row;
            let ghost before = spawns@;
            spawns.push((one, 2));
            spawns.push((two, 1));
            proof {
                assert(one@ =~= self.with_at(i as int, j as int, 1));
                assert(two@ =~= self.with_at(i as int, j as int, 2));
                assert(positions@.take(k + 1).drop_last() =~= positions@.take(k as int));
                assert(Self::weighted_grids(spawns@) =~= Self::weighted_grids(before) + seq![
                    (self.with_at(i as int, j as int, 1), 2u8),
                    (self.with_at(i as int, j as int, 2), 1u8),
                ]);
            }
            k = k + 1;
        }
        proof {
            assert(positions@.take(positions@.len() as int) =~= positions@);
        }
        spawns
    }

    /// Every spawn, with the empty cells taken in a random order: for each
    /// empty cell, the grid with a tile of exponent 1 there (weight 2), then
    /// with a tile of exponent 2 there (weight 1).
    pub fn iter_spawns_random(self) -> (spawns: Vec<(Self, u8)>)
        ensures
            exists|ps: Seq<(usize, usize)>|
                ps.to_multiset() == self.empty_positions().to_multiset() && Self::weighted_grids(
                    spawns@,
                ) == #[trigger] self.spawns_at_positions(ps),
            Self::weighted_grids(spawns@).to_multiset() == self.spawns_upto(ROWS * COLS).to_multiset(),
    {
        let mut positions = self.empty_position_list();
        let ghost listed = positions@;
        let mut rng = crate::game::twenty_forty_eight::sampling::thread_rng();
        crate::game::twenty_forty_eight::sampling::shuffle_positions(&mut positions, &mut rng);
        proof {
            self.lemma_empty_positions_in_grid(ROWS * COLS);
            assert forall|k: int| 0 <= k < positions@.len() implies (#[trigger] positions@[k]).0
                < ROWS && positions@[k].1 < COLS by {
                broadcast use vstd::seq_lib::group_to_multiset_ensures;

                assert(positions@.contains(positions@[k]));
                assert(positions@.to_multiset().count(positions@[k]) > 0);
                assert(listed.to_multiset().count(positions@[k]) > 0);
                assert(self.empty_positions().contains(positions@[k]));
            }
        }
        let spawns = self.spawns_at(&positions);
        proof {
            self.lemma_spawns_at_permutation(positions@, listed);
            if ROWS * COLS >= 0 {
                self.lemma_spawns_at_empty_positions(ROWS * COLS);
            }
        }
        spawns
    }

    /// The spawns at positions `x` then `y` are those at `x`, then those at `y`.
    proof fn lemma_spawns_at_concat(self, x: Seq<(usize, usize)>, y: Seq<(usize, usize)>)
        ensures
            self.spawns_at_positions(x + y) == self.spawns_at_positions(x) + self.spawns_at_positions(y),
        decreases y.len(),
    {
        if y.len() == 0 {
            assert(x + y =~= x);
            assert(self.spawns_at_positions(x) + self.spawns_at_positions(y) =~= self.spawns_at_positions(x));
        } else {
            assert((x + y).drop_last() =~= x + y.drop_last());
            assert((x + y).last() == y.last());
            self.lemma_spawns_at_concat(x, y.drop_last());
            let pair = self.spawn_pair(y.last());
            assert(self.spawns_at_positions(x) + self.spawns_at_positions(y.drop_last()) + pair
                =~= self.spawns_at_positions(x) + (self.spawns_at_positions(y.drop_last()) + pair));
        }
    }

    /// The spawns at positions taken in another order are the same spawns, in
    /// another order.
    proof fn lemma_spawns_at_permutation(self, p1: Seq<(usize, usize)>, p2: Seq<(usize, usize)>)
        requires
            p1.to_multiset() == p2.to_multiset(),
        ensures
            self.spawns_at_positions(p1).to_multiset() == self.spawns_at_positions(p2).to_multiset(),
        decreases p1.len(),
    {
        broadcast use vstd::seq_lib::group_to_multiset_ensures;
        broadcast use vstd::seq_lib::lemma_multiset_commutative;

        if p1.len() == 0 {
            vstd::seq_lib::to_multiset_len(p1);
            vstd::seq_lib::to_multiset_len(p2);
            assert(p2.len() == 0);
            assert(p1 =~= p2);
        } else {
            let a = p1.last();
            let rest1 = p1.drop_last();
            assert(rest1.push(a) =~= p1);
            assert(p2.to_multiset().count(a) > 0);
            assert(p2.contains(a));
            let i = choose|i: int| 0 <= i < p2.len() && p2[i] == a;
            let rest2 = p2.remove(i);
            assert(rest2.to_multiset() == p2.to_multiset().remove(a));
            assert(rest1.to_multiset() =~= p1.to_multiset().remove(a));
            self.lemma_spawns_at_permutation(rest1, rest2);
            let front = p2.take(i);
            let back = p2.skip(i + 1);
            assert(p2 =~= front + seq![a] + back);
            assert(rest2 =~= front + back);
            self.lemma_spawns_at_concat(front + seq![a], back);
            self.lemma_spawns_at_concat(front, seq![a]);
            self.lemma_spawns_at_concat(front, back);
            let pair = self.spawn_pair(a);
            assert(seq![a].drop_last() =~= Seq::<(usize, usize)>::empty());
            assert(seq![a].last() == a);
            assert(self.spawns_at_positions(Seq::<(usize, usize)>::empty()) =~= Seq::empty());
            assert(self.spawns_at_positions(seq![a]) =~= pair);
            assert(self.spawns_at_positions(p1) == self.spawns_at_positions(rest1) + pair);
            let sf = self.spawns_at_positions(front);
            let sb = self.spawns_at_positions(back);
            assert(self.spawns_at_positions(p2) == sf + pair + sb);
            assert(self.spawns_at_positions(rest2) == sf + sb);
            assert((sf + pair + sb).to_multiset() =~= sf.to_multiset().add(pair.to_multiset()).add(
                sb.to_multiset(),
            ));
            assert((sf + sb).to_multiset() =~= sf.to_multiset().add(sb.to_multiset()));
        }
    }

    /// The spawns at the empty cells, in row-major order, are the spawns that
    /// [`Cells::spawns`] lists.
    proof fn lemma_spawns_at_empty_positions(self, n: int)
        requires
            0 <= n <= ROWS * COLS,
        ensures
            self.spawns_at_positions(self.empty_positions_upto(n)) == self.spawns_upto(n),
        decreases n,
    {
        if n > 0 {
            self.lemma_spawns_at_empty_positions(n - 1);
            if COLS == 0 {
                assert(ROWS * COLS == 0) by (nonlinear_arith)
                    requires
                        COLS == 0,
                ;
            }
            let r = (n - 1) / (COLS as int);
            let c = (n - 1) % (COLS as int);
            assert(0 <= r < ROWS) by (nonlinear_arith)
                requires
                    COLS > 0,
                    0 < n <= ROWS * COLS,
                    r == (n - 1) / (COLS as int),
            ;
            assert(0 <= c < COLS) by (nonlinear_arith)
                requires
                    COLS > 0,
                    c == (n - 1) % (COLS as int),
            ;
            let prev = self.empty_positions_upto(n - 1);
            if self.at(r, c) == 0 {
                let ps = prev.push((r as usize, c as usize));
                assert(ps.drop_last() =~= prev);
                assert(ps.last() == (r as usize, c as usize));
            }
        }
    }

    /// The empty positions lie inside the grid.
    proof fn lemma_empty_positions_in_grid(self, n: int)
        requires
            n <= ROWS * COLS,
        ensures
            forall|k: int|
                0 <= k < self.empty_positions_upto(n).len() ==> (#[trigger] self.empty_positions_upto(
                    n,
                )[k]).0 < ROWS && self.empty_positions_upto(n)[k].1 < COLS,
        decreases n,
    {
        if n > 0 {
            self.lemma_empty_positions_in_grid(n - 1);
            if COLS == 0 {
                assert(ROWS * COLS == 0) by (nonlinear_arith)
                    requires
                        COLS == 0,
                ;
            }
            assert(0 <= (n - 1) / (COLS as int) < ROWS) by (nonlinear_arith)
                requires
                    COLS > 0,
                    0 < n <= ROWS * COLS,
            ;
            assert(0 <= (n - 1) % (COLS as int) < COLS) by (nonlinear_arith)
                requires
                    COLS > 0,
            ;
            let prev = self.empty_positions_upto(n - 1);
            let cur = self.empty_positions_upto(n);
            assert forall|k: int| 0 <= k < cur.len() implies (#[trigger] cur[k]).0 < ROWS
                && cur[k].1 < COLS by {
                if k < prev.len() {
                    assert(cur[k] == prev[k]);
                }
            }
        }
    }
}

impl<const COLS: usize, const ROWS: usize> Cells<COLS, ROWS> {
    /// `m` is the largest value in a cell.
    pub open spec fn is_max_cell(self, m: u8) -> bool {
        &&& forall|r: int, c: int| 0 <= r < ROWS && 0 <= c < COLS ==> #[trigger] self.at(r, c) <= m
        &&& exists|r: int, c: int| 0 <= r < ROWS && 0 <= c < COLS && #[trigger] self.at(r, c) == m
    }

    /// The largest value in a cell.
    pub fn max_cell(&self) -> (m: u8)
        requires
            ROWS > 0,
            COLS > 0,
        ensures
            self.is_max_cell(m),
    {
        let mut m = self.cells[0][0];
        let ghost mut at: (int, int) = (0, 0);
        let mut i: usize = 0;
        while i < ROWS
            invariant
                0 <= i <= ROWS,
                COLS > 0,
                ROWS > 0,
                0 <= at.0 < ROWS && 0 <= at.1 < COLS && self.at(at.0, at.1) == m,
                forall|r: int, c: int| 0 <= r < i && 0 <= c < COLS ==> #[trigger] self.at(r, c) <= m,
                i == 0 ==> m == self.at(0, 0),
            decreases ROWS - i,
        {
            let mut j: usize = 0;
            while j < COLS
                invariant
                    0 <= j <= COLS,
                    0 <= i < ROWS,
                    0 <= at.0 < ROWS && 0 <= at.1 < COLS && self.at(at.0, at.1) == m,
                    forall|r: int, c: int| 0 <= r < i && 0 <= c < COLS ==> #[trigger] self.at(r, c) <= m,
                    forall|c: int| 0 <= c < j ==> #[trigger] self.at(i as int, c) <= m,
                decreases COLS - j,
            {
                if self.cells[i][j] > m {
                    m = self.cells[i][j];
                    proof {
                        at = (i as int, j as int);
                    }
                }
                j = j + 1;
            }
            i = i + 1;
        }
        m
    }
}

} // verus!
