//! The game 2048 on a grid of `ROWS` rows of `COLS` cells.
pub mod board;
pub mod sampling;

use self::board::{spawn_steps, Cells, Direction, Spawns, Weight};
use self::sampling::{sample_weighted, weight_sum};
use crate::accumulator::fraction::Weighted;
use crate::game::{DiscreteDistribution, Outcome};
use vstd::prelude::*;

verus! {

/// A state of the game: the grid.
#[derive(Clone, Debug, PartialEq, Eq, Hash)]
pub struct TwentyFortyEight<const COLS: usize, const ROWS: usize> {
    pub cells: Cells<COLS, ROWS>,
}

/// A state of the game, by its shorter name.
pub type State<const COLS: usize, const ROWS: usize> = TwentyFortyEight<COLS, ROWS>;

/// The directions in which a swipe changes `cells`, in the order up, down,
/// left, right.
pub open spec fn moving_directions<const COLS: usize, const ROWS: usize>(cells: Cells<COLS, ROWS>) -> Seq<
    Direction,
> {
    moving_prefix(cells, 4)
}

/// The directions among the first `n` of up, down, left, right in which a
/// swipe changes `cells`.
pub open spec fn moving_prefix<const COLS: usize, const ROWS: usize>(cells: Cells<COLS, ROWS>, n: int) -> Seq<
    Direction,
>
    decreases n,
{
    if n <= 0 {
        Seq::empty()
    } else {
        let d = seq![Direction::Up, Direction::Down, Direction::Left, Direction::Right][n - 1];
        let before = moving_prefix(cells, n - 1);
        if cells.swipe_moves(d) {
            before.push(d)
        } else {
            before
        }
    }
}

impl<const COLS: usize, const ROWS: usize> TwentyFortyEight<COLS, ROWS> {
    /// The state with the given grid.
    pub fn from_cells(cells: Cells<COLS, ROWS>) -> (r: Self)
        ensures
            r.cells == cells,
    {
        TwentyFortyEight { cells }
    }

    /// The state with the given grid.
    pub fn from_state(state: Cells<COLS, ROWS>) -> (r: Self)
        ensures
            r.cells == state,
    {
        Self::from_cells(state)
    }

    /// The game is over: no cell is empty and no two neighbouring cells hold the
    /// same tile.
    pub fn terminal(&self) -> (r: bool)
        requires
            ROWS > 0,
            COLS > 0,
        ensures
            r == !self.cells.spec_has_move(),
    {
        self.cells.is_lost()
    }

    /// The game is over, as [`TwentyFortyEight::terminal`] says.
    pub fn is_terminal(&self) -> (r: bool)
        requires
            ROWS > 0,
            COLS > 0,
        ensures
            r == !self.cells.spec_has_move(),
    {
        self.cells.is_lost()
    }

    /// The swipes that change the grid, in the order up, down, left, right,
    /// each with the grid it leaves (before a tile spawns); none once the game
    /// is over.
    pub fn moves(&self) -> (r: Vec<(Direction, Cells<COLS, ROWS>)>)
        requires
            ROWS > 0,
            COLS > 0,
            forall|d: Direction| #[trigger] self.cells.can_swipe(d),
        ensures
            r@.map_values(|m: (Direction, Cells<COLS, ROWS>)| m.0) == if self.cells.spec_has_move() {
                moving_directions(self.cells)
            } else {
                Seq::<Direction>::empty()
            },
            forall|k: int| 0 <= k < r@.len() ==> self.cells.is_swiped(#[trigger] r@[k].0, r@[k].1),
    {
        let mut r: Vec<(Direction, Cells<COLS, ROWS>)> = Vec::new();
        if self.terminal() {
            assert(r@.map_values(|m: (Direction, Cells<COLS, ROWS>)| m.0) =~= Seq::<Direction>::empty());
            return r;
        }
        let ghost cells = self.cells;
        let ds = [Direction::Up, Direction::Down, Direction::Left, Direction::Right];
        let mut i: usize = 0;
        while i < 4
            invariant
                0 <= i <= 4,
                cells == self.cells,
                ds@ == seq![Direction::Up, Direction::Down, Direction::Left, Direction::Right],
                forall|d: Direction| #[trigger] self.cells.can_swipe(d),
                r@.map_values(|m: (Direction, Cells<COLS, ROWS>)| m.0) == moving_prefix(cells, i as int),
                forall|k: int| 0 <= k < r@.len() ==> cells.is_swiped(#[trigger] r@[k].0, r@[k].1),
            decreases 4 - i,
        {
            let d = ds[i];
            let ghost before = r@;
            match self.cells.swiped(d) {
                Some(after) => {
                    r.push((d, after));
                    assert(r@.map_values(|m: (Direction, Cells<COLS, ROWS>)| m.0) =~= before.map_values(
                        |m: (Direction, Cells<COLS, ROWS>)| m.0,
                    ).push(d));
                },
                None => {},
            }
            i = i + 1;
        }
        r
    }

    /// Swipes in `action`. Returns whether the swipe changed a line, and the
    /// outcome: the swiped grid, on which a tile is still to spawn; an empty
    /// grid when the swipe changed nothing, since the action is then not valid.
    pub fn outcome(self, action: Direction) -> (r: (bool, TwentyFortyEightOutcome<COLS, ROWS>))
        requires
            self.cells.can_swipe(action),
        ensures
            r.0 == self.cells.swipe_moves(action),
            r.0 ==> self.cells.is_swiped(action, r.1.cells),
            !r.0 ==> r.1.cells.is_empty_grid(),
    {
        let mut cells = self.cells;
        if !cells.swipe(action) {
            return (false, TwentyFortyEightOutcome { cells: Cells::new() });
        }
        (true, TwentyFortyEightOutcome { cells })
    }
}

impl<const COLS: usize, const ROWS: usize> TwentyFortyEight<COLS, ROWS> {
    /// The board as text, as [`Cells::render`] shows it.
    pub fn render(&self) -> (text: String)
        requires
            self.cells.cells_at_most(168),
        ensures
            text@ == board::grid_text(self.cells@),
    {
        self.cells.render()
    }
}

impl<const COLS: usize, const ROWS: usize> Default for TwentyFortyEight<COLS, ROWS> {
    /// The state with the empty grid.
    fn default() -> (r: Self)
        ensures
            r.cells.is_empty_grid(),
    {
        Self::from_cells(Cells::new())
    }
}

/// Weights each at most 2 sum to at most twice their number.
proof fn lemma_small_weights(weights: Seq<u8>)
    requires
        forall|k: int| 0 <= k < weights.len() ==> 1 <= #[trigger] weights[k] <= 2,
    ensures
        weight_sum(weights) <= 2 * weights.len(),
        weights.len() > 0 ==> weight_sum(weights) > 0,
    decreases weights.len(),
{
    if weights.len() > 0 {
        lemma_small_weights(weights.drop_last());
    }
}

proof fn lemma_spawn_steps_bounds(grid: Cells<4, 4>, from: int)
    requires
        0 <= from,
    ensures
        spawn_steps(grid, from).len() <= if from >= 32 { 0 } else { 32 - from },
        forall|k: int|
            0 <= k < spawn_steps(grid, from).len() ==> 1 <= #[trigger] spawn_steps(grid, from)[k].1
                <= 2,
    decreases 32 - from,
{
    if from < 32 {
        lemma_spawn_steps_bounds(grid, from + 1);
    }
}

/// The weights of a list of weighted values.
fn weights_of<T>(outcomes: &Vec<Weighted<T, Weight>>) -> (weights: Vec<u8>)
    ensures
        weights@.len() == outcomes@.len(),
        forall|k: int| 0 <= k < weights@.len() ==> #[trigger] weights@[k] == outcomes@[k].weight@,
{
    let mut weights: Vec<u8> = Vec::new();
    let mut k: usize = 0;
    while k < outcomes.len()
        invariant
            0 <= k <= outcomes@.len(),
            weights@.len() == k,
            forall|j: int| 0 <= j < k ==> #[trigger] weights@[j] == outcomes@[j].weight@,
        decreases outcomes@.len() - k,
    {
        weights.push(outcomes[k].weight.get());
        k = k + 1;
    }
    weights
}

impl TwentyFortyEight<4, 4> {
    /// A new game: the empty grid with one tile spawned at random, a tile of
    /// exponent 2 with weight 1 and one of exponent 1 with weight 2.
    pub fn new() -> (r: Self)
        ensures
            exists|k: int|
                0 <= k < spawn_steps(Cells::<4, 4>::empty_grid(), 0).len() && r.cells@ == (
                #[trigger] spawn_steps(Cells::<4, 4>::empty_grid(), 0)[k]).0,
    {
        let cells = Cells::new();
        proof {
            assert(cells == Cells::<4, 4>::empty_grid()) by {
                Cells::<4, 4>::lemma_empty_grid(cells);
            }
        }
        let options = Spawns::new(cells).collect();
        let weights = weights_of(&options);
        proof {
            lemma_spawn_steps_bounds(cells, 0);
            lemma_small_weights(weights@);
            assert(cells.lane(0) == 0);
            assert(spawn_steps(cells, 0).len() > 0);
        }
        let index = match sample_weighted(&weights) {
            Ok(index) => index,
            Err(_) => 0,
        };
        Self::from_cells(options[index].value)
    }
}

/// The grid after a swipe, before a tile spawns on it.
#[derive(Debug, Clone, PartialEq, Eq, Hash)]
pub struct TwentyFortyEightOutcome<const COLS: usize, const ROWS: usize> {
    pub cells: Cells<COLS, ROWS>,
}

impl TwentyFortyEightOutcome<4, 4> {
    /// The states that can follow, each with its weight: the spawns on the grid,
    /// as [`Spawns`] lists them; none when the grid is empty.
    pub fn distribution(self) -> (r: Vec<Weighted<TwentyFortyEight<4, 4>, Weight>>)
        ensures
            self.cells.is_empty_grid() ==> r@.len() == 0,
            !self.cells.is_empty_grid() ==> {
                &&& r@.len() == spawn_steps(self.cells, 0).len()
                &&& forall|k: int|
                    0 <= k < r@.len() ==> (#[trigger] r@[k]).value.cells@ == spawn_steps(
                        self.cells,
                        0,
                    )[k].0 && r@[k].weight@ == spawn_steps(self.cells, 0)[k].1
            },
    {
        let mut all: Vec<Weighted<TwentyFortyEight<4, 4>, Weight>> = Vec::new();
        if self.cells.is_empty() {
            return all;
        }
        let spawns = Spawns::new(self.cells).collect();
        let mut k: usize = 0;
        while k < spawns.len()
            invariant
                0 <= k <= spawns@.len(),
                all@.len() == k,
                forall|j: int|
                    0 <= j < k ==> (#[trigger] all@[j]).value.cells == spawns@[j].value
                        && all@[j].weight == spawns@[j].weight,
            decreases spawns@.len() - k,
        {
            all.push(
                Weighted { value: TwentyFortyEight::from_cells(spawns[k].value), weight: spawns[k].weight },
            );
            k = k + 1;
        }
        all
    }
}

impl Outcome<TwentyFortyEight<4, 4>> for TwentyFortyEightOutcome<4, 4> {
    /// One of the states that can follow, drawn at random with a chance
    /// proportional to its weight; the state with the empty grid when none can.
    fn collapse(self) -> (r: TwentyFortyEight<4, 4>)
        ensures
            self.cells.is_empty_grid() ==> r.cells.is_empty_grid(),
            !self.cells.is_empty_grid() ==> spawn_steps(self.cells, 0).len() == 0 ==> r.cells.is_empty_grid(),
            !self.cells.is_empty_grid() ==> spawn_steps(self.cells, 0).len() > 0 ==> exists|k: int|
                0 <= k < spawn_steps(self.cells, 0).len() && r.cells@ == (#[trigger] spawn_steps(
                    self.cells,
                    0,
                )[k]).0,
    {
        let ghost grid = self.cells;
        let outcomes = self.distribution();
        let weights = weights_of(&outcomes);
        proof {
            lemma_spawn_steps_bounds(grid, 0);
            lemma_small_weights(weights@);
        }
        match sample_weighted(&weights) {
            Ok(index) => TwentyFortyEight::from_cells(outcomes[index].value.cells),
            Err(_) => TwentyFortyEight::from_cells(Cells::new()),
        }
    }
}

impl<const COLS: usize, const ROWS: usize> DiscreteDistribution for TwentyFortyEightOutcome<
    COLS,
    ROWS,
> {
    type T = TwentyFortyEight<COLS, ROWS>;

    type Weight = Weight;
}

} // verus!
