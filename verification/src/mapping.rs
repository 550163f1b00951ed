use vstd::prelude::*;
use crate::maze_model::{MazeView, step_fits, outer_bit, outer_bits, lemma_index_in_range, lemma_or_zero};
use crate::fixed_queue::FixedQueue;
use crate::maze_laws::reading_writes;
use crate::flood::{sum_prefix, lemma_sum_nonneg, preferences, inf_count, lemma_inf_count_range, lemma_inf_count_bounds, lemma_inf_count_update};

verus! {

/// Number of cells of a full-size 16 x 16 micromouse maze.
pub const MICROMOUSE_CELLS: usize = 16 * 16;

/// Cost that flood fill leaves on cells no goal can reach.
pub const INF_COST: u16 = 65535;

/// A cell of the maze; `x` grows eastwards and `y` northwards.
#[derive(Clone, Copy, Debug, Default, PartialEq, Eq, Structural)]
pub struct Coord {
    pub x: u8,
    pub y: u8,
}

impl Coord {
    pub fn new(x: u8, y: u8) -> (c: Self)
        ensures
            c.x == x,
            c.y == y,
    {
        Self { x, y }
    }
}

/// The four cells at the centre of a 16 x 16 maze, the usual goal region.
pub fn center_goals_16() -> (goals: [Coord; 4])
    ensures
        goals@ == seq![
            Coord { x: 7, y: 7 },
            Coord { x: 7, y: 8 },
            Coord { x: 8, y: 7 },
            Coord { x: 8, y: 8 },
        ],
{
    let goals = [Coord::new(7, 7), Coord::new(7, 8), Coord::new(8, 7), Coord::new(8, 8)];
    assert(goals@ =~= seq![
        Coord { x: 7, y: 7 },
        Coord { x: 7, y: 8 },
        Coord { x: 8, y: 7 },
        Coord { x: 8, y: 8 },
    ]);
    goals
}

/// A compass heading; North is towards growing `y`.
#[derive(Clone, Copy, Debug, PartialEq, Eq, Structural)]
pub enum Direction {
    North,
    East,
    South,
    West,
}

impl Direction {
    /// The four headings, clockwise from North.
    pub fn all() -> (dirs: [Direction; 4])
        ensures
            dirs@ == seq![Direction::North, Direction::East, Direction::South, Direction::West],
    {
        let dirs = [Direction::North, Direction::East, Direction::South, Direction::West];
        assert(dirs@ =~= seq![Direction::North, Direction::East, Direction::South, Direction::West]);
        dirs
    }

    /// The heading a quarter turn counter-clockwise.
    #[verifier::allow_in_spec]
    pub fn left(self) -> Self
        returns
            (match self {
                Direction::North => Direction::West,
                Direction::East => Direction::North,
                Direction::South => Direction::East,
                Direction::West => Direction::South,
            }),
    {
        match self {
            Direction::North => Direction::West,
            Direction::East => Direction::North,
            Direction::South => Direction::East,
            Direction::West => Direction::South,
        }
    }

    /// The heading a quarter turn clockwise.
    #[verifier::allow_in_spec]
    pub fn right(self) -> Self
        returns
            (match self {
                Direction::North => Direction::East,
                Direction::East => Direction::South,
                Direction::South => Direction::West,
                Direction::West => Direction::North,
            }),
    {
        match self {
            Direction::North => Direction::East,
            Direction::East => Direction::South,
            Direction::South => Direction::West,
            Direction::West => Direction::North,
        }
    }

    /// The opposite heading.
    #[verifier::allow_in_spec]
    pub fn back(self) -> Self
        returns
            (match self {
                Direction::North => Direction::South,
                Direction::East => Direction::West,
                Direction::South => Direction::North,
                Direction::West => Direction::East,
            }),
    {
        match self {
            Direction::North => Direction::South,
            Direction::East => Direction::West,
            Direction::South => Direction::North,
            Direction::West => Direction::East,
        }
    }

    /// The bit that records a wall (or knowledge of one) on this side of a cell.
    #[verifier::allow_in_spec]
    pub fn bit(self) -> u8
        returns
            (match self {
                Direction::North => 1u8,
                Direction::East => 2u8,
                Direction::South => 4u8,
                Direction::West => 8u8,
            }),
    {
        match self {
            Direction::North => 0b0001,
            Direction::East => 0b0010,
            Direction::South => 0b0100,
            Direction::West => 0b1000,
        }
    }
}

/// Turning right undoes turning left, and the other way round; two quarter
/// turns either way face back; the opposite of the opposite is the heading
/// itself.
pub proof fn lemma_turns(d: Direction)
    ensures
        d.left().right() == d,
        d.right().left() == d,
        d.left().left() == d.back(),
        d.right().right() == d.back(),
        d.back().back() == d,
        d.right().right().right().right() == d,
{
}

/// Each heading owns a distinct single bit among the low four bits.
pub proof fn lemma_bits_distinct(d1: Direction, d2: Direction)
    ensures
        d1.bit() == 1u8 || d1.bit() == 2u8 || d1.bit() == 4u8 || d1.bit() == 8u8,
        d1 != d2 ==> d1.bit() != d2.bit(),
{
}

/// How flood fill treats sides whose wall state has not been observed.
#[derive(Clone, Copy, Debug, PartialEq, Eq, Structural)]
pub enum FloodFillMode {
    ExploreUnknownAsOpen,
    KnownOpenOnly,
}

#[derive(Clone, Copy, Debug, PartialEq, Eq, Structural)]
pub enum MazeError {
    InvalidDimensions,
    OutOfBounds,
    TooManyGoals,
    QueueFull,
}


/// Wall observations from the three forward-facing range sensors, relative
/// to the heading: `Some(true)` a wall, `Some(false)` an opening, `None` no
/// reading.
#[derive(Clone, Copy, Debug, PartialEq, Eq, Structural)]
pub struct WallReadings {
    pub front: Option<bool>,
    pub left: Option<bool>,
    pub right: Option<bool>,
}

/// A maze of `width` x `height` cells stored row-major in `CELLS` slots; per
/// cell one bit per side for walls and one for sides already observed.
#[derive(Clone, Debug, PartialEq, Eq)]
pub struct Maze<const CELLS: usize> {
    width: u8,
    height: u8,
    walls: [u8; CELLS],
    known: [u8; CELLS],
}

impl<const CELLS: usize> View for Maze<CELLS> {
    type V = MazeView;

    closed spec fn view(&self) -> MazeView {
        MazeView { width: self.width, height: self.height, walls: self.walls@, known: self.known@ }
    }
}

impl<const CELLS: usize> Maze<CELLS> {
    /// Both bit arrays of the model have one entry per storage slot.
    pub proof fn lemma_storage(&self)
        ensures
            self@.walls.len() == CELLS,
            self@.known.len() == CELLS,
    {
    }

    /// A maze with the given dimensions and no wall or observation recorded;
    /// the dimensions are not checked against the storage.
    pub fn new_unchecked(width: u8, height: u8) -> (maze: Self)
        ensures
            maze@.width == width,
            maze@.height == height,
            maze@.walls == Seq::new(CELLS as nat, |i: int| 0u8),
            maze@.known == Seq::new(CELLS as nat, |i: int| 0u8),
    {
        let maze = Self { width, height, walls: [0;CELLS], known: [0;CELLS] };
        assert(maze@.walls =~= Seq::new(CELLS as nat, |i: int| 0u8));
        assert(maze@.known =~= Seq::new(CELLS as nat, |i: int| 0u8));
        maze
    }

    pub fn width(&self) -> (w: u8)
        ensures
            w == self@.width,
    {
        self.width
    }

    pub fn height(&self) -> (h: u8)
        ensures
            h == self@.height,
    {
        self.height
    }

    /// The adjacent cell towards `direction`, when the maze extends that far.
    pub fn neighbor(&self, cell: Coord, direction: Direction) -> (n: Option<Coord>)
        requires
            step_fits(cell, direction),
        ensures
            n == self@.neighbor(cell, direction),
    {
        match direction {
            Direction::North if cell.y + 1 < self.height => Some(Coord::new(cell.x, cell.y + 1)),
            Direction::East if cell.x + 1 < self.width => Some(Coord::new(cell.x + 1, cell.y)),
            Direction::South if cell.y > 0 => Some(Coord::new(cell.x, cell.y - 1)),
            Direction::West if cell.x > 0 => Some(Coord::new(cell.x - 1, cell.y)),
            _ => None,
        }
    }

    fn index(&self, cell: Coord) -> (r: Result<usize, MazeError>)
        ensures
            self@.in_bounds(cell) ==> r == Ok::<usize, MazeError>(self@.index_of(cell) as usize)
                && self@.index_of(cell) < self@.used(),
            !self@.in_bounds(cell) ==> r == Err::<usize, MazeError>(MazeError::OutOfBounds),
    {
        if cell.x >= self.width || cell.y >= self.height {
            return Err(MazeError::OutOfBounds);
        }
        proof {
            lemma_index_in_range(self.width as int, self.height as int, cell.x as int, cell.y as int);
            assert(self.width as int * self.height as int <= 255 * 255) by (nonlinear_arith)
                requires
                    self.width <= 255,
                    self.height <= 255,
            ;
        }
        Ok(cell.y as usize * self.width as usize + cell.x as usize)
    }

    fn used_cells(&self) -> (n: usize)
        ensures
            n == self@.used(),
    {
        proof {
            assert(self.width as int * self.height as int <= 255 * 255) by (nonlinear_arith)
                requires
                    self.width <= 255,
                    self.height <= 255,
            ;
        }
        self.width as usize * self.height as usize
    }

    /// Whether the side `direction` of `cell` holds a wall; a side at the
    /// edge of the maze always does.
    pub fn has_wall(&self, cell: Coord, direction: Direction) -> (r: Result<bool, MazeError>)
        requires
            self@.neighbor(cell, direction) is Some ==> self@.stored(cell),
            step_fits(cell, direction),
        ensures
            r == self@.has_wall(cell, direction),
    {
        if self.neighbor(cell, direction).is_none() {
            return Ok(true);
        }
        let idx = match self.index(cell) {
            Ok(idx) => idx,
            Err(e) => return Err(e),
        };
        Ok((self.walls[idx] & direction.bit()) != 0)
    }

    /// Whether the side `direction` of `cell` has been observed; a side at
    /// the edge of the maze always counts as observed.
    pub fn is_known(&self, cell: Coord, direction: Direction) -> (r: Result<bool, MazeError>)
        requires
            self@.neighbor(cell, direction) is Some ==> self@.stored(cell),
            step_fits(cell, direction),
        ensures
            r == self@.is_known(cell, direction),
    {
        if self.neighbor(cell, direction).is_none() {
            return Ok(true);
        }
        let idx = match self.index(cell) {
            Ok(idx) => idx,
            Err(e) => return Err(e),
        };
        Ok((self.known[idx] & direction.bit()) != 0)
    }

    fn can_move(&self, cell: Coord, direction: Direction, mode: FloodFillMode) -> (r: Result<
        bool,
        MazeError,
    >)
        requires
            self@.neighbor(cell, direction) is Some ==> self@.stored(cell),
            step_fits(cell, direction),
        ensures
            r == self@.can_move(cell, direction, mode),
    {
        if self.neighbor(cell, direction).is_none() {
            return Ok(false);
        }
        match self.has_wall(cell, direction) {
            Ok(true) => return Ok(false),
            Ok(false) => {},
            Err(e) => return Err(e),
        }
        match mode {
            FloodFillMode::ExploreUnknownAsOpen => Ok(true),
            FloodFillMode::KnownOpenOnly => self.is_known(cell, direction),
        }
    }

    /// Records whether the side `direction` of `cell` is a wall, on this cell
    /// and on the neighbour sharing that side, and marks the side observed on
    /// both.
    pub fn set_wall(&mut self, cell: Coord, direction: Direction, present: bool) -> (r: Result<
        (),
        MazeError,
    >)
        requires
            old(self)@.side_stored(cell, direction),
        ensures
            old(self)@.in_bounds(cell) ==> r is Ok && final(self)@ == old(self)@.after_set_wall(
                cell,
                direction,
                present,
            ),
            !old(self)@.in_bounds(cell) ==> r == Err::<(), MazeError>(MazeError::OutOfBounds)
                && final(self)@ == old(self)@,
            old(self)@.wf() ==> final(self)@.wf(),
            final(self)@.width == old(self)@.width,
            final(self)@.height == old(self)@.height,
            final(self)@.walls.len() == old(self)@.walls.len(),
            old(self)@.wf() && old(self)@.consistent() ==> final(self)@.consistent(),
            final(self)@ == old(self)@.after_writes(seq![(cell, direction, present)]),
    {
        proof {
            self.lemma_storage();
            let w = seq![(cell, direction, present)];
            assert(w.drop_last() =~= Seq::<(Coord, Direction, bool)>::empty());
            assert(old(self)@.after_writes(w.drop_last()) == old(self)@);
        }
        let idx = match self.index(cell) {
            Ok(idx) => idx,
            Err(e) => return Err(e),
        };
        let bit = direction.bit();
        self.known[idx] = self.known[idx] | bit;

        if present || self.neighbor(cell, direction).is_none() {
            self.walls[idx] = self.walls[idx] | bit;
        } else {
            self.walls[idx] = self.walls[idx] & !bit;
        }

        if let Some(other) = self.neighbor(cell, direction) {
            proof {
                old(self)@.lemma_neighbor_back(cell, direction);
            }
            let other_idx = match self.index(other) {
                Ok(i) => i,
                Err(e) => return Err(e),
            };
            let opposite = direction.back();
            self.known[other_idx] = self.known[other_idx] | opposite.bit();
            if present {
                self.walls[other_idx] = self.walls[other_idx] | opposite.bit();
            } else {
                self.walls[other_idx] = self.walls[other_idx] & !opposite.bit();
            }
        }
        proof {
            assert(self@.walls =~= old(self)@.after_set_wall(cell, direction, present).walls);
            assert(self@.known =~= old(self)@.after_set_wall(cell, direction, present).known);
            if old(self)@.wf() && old(self)@.consistent() {
                old(self)@.lemma_set_wall_consistent(cell, direction, present);
            }
        }
        Ok(())
    }

    /// A maze of the given dimensions with only its outer walls recorded,
    /// or `InvalidDimensions` when a dimension is zero or the cells do not
    /// fit in `CELLS`.
    pub fn new(width: u8, height: u8) -> (r: Result<Self, MazeError>)
        ensures
            (width == 0 || height == 0 || width as int * height as int > CELLS) <==> r is Err,
            r is Err ==> r == Err::<Self, MazeError>(MazeError::InvalidDimensions),
            r matches Ok(m) ==> {
                &&& m@.width == width
                &&& m@.height == height
                &&& m@.wf()
                &&& m@.walls.len() == CELLS
                &&& m@.outer_walls_only()
                &&& m@.consistent()
            },
    {
        proof {
            assert(width as int * height as int <= 255 * 255) by (nonlinear_arith)
                requires
                    width <= 255,
                    height <= 255,
            ;
        }
        if width == 0 || height == 0 || width as usize * height as usize > CELLS {
            return Err(MazeError::InvalidDimensions);
        }
        let mut maze = Self::new_unchecked(width, height);
        maze.mark_outer_walls();
        proof {
            maze@.lemma_fresh_consistent();
        }
        Ok(maze)
    }

    fn mark_outer_walls(&mut self)
        requires
            old(self)@.wf(),
            old(self)@.width >= 1,
            old(self)@.height >= 1,
            forall|i: int| 0 <= i < CELLS ==> old(self)@.walls[i] == 0u8 && old(self)@.known[i] == 0u8,
        ensures
            final(self)@.width == old(self)@.width,
            final(self)@.height == old(self)@.height,
            final(self)@.wf(),
            final(self)@.outer_walls_only(),
    {
        let ghost w = self.width;
        let ghost h = self.height;
        proof {
            lemma_or_zero();
            self@.lemma_indices();
        }
        let width = self.width;
        let height = self.height;
        for x in 0..width
            invariant
                self@.wf(),
                self@.width == w,
                self@.height == h,
                w >= 1,
                h >= 1,
                width == w,
                height == h,
                forall|c: Coord| #[trigger]
                    self@.in_bounds(c) ==> {
                        let v = if c.x < x {
                            outer_bit(w, h, c, Direction::South) | outer_bit(w, h, c, Direction::North)
                        } else {
                            0u8
                        };
                        self@.walls[self@.index_of(c)] == v && self@.known[self@.index_of(c)] == v
                    },
                self@.walls.len() == CELLS,
                self@.known.len() == CELLS,
                forall|i: int| self@.used() <= i < CELLS ==> self@.walls[i] == 0u8 && self@.known[i] == 0u8,
        {
            let ghost before = self@;
            proof {
                before.lemma_wf_stored();
            }
            assert(x < w);
            let _ = self.set_wall(Coord::new(x, 0), Direction::South, true);
            let ghost mid = self@;
            proof {
                mid.lemma_wf_stored();
            }
            let _ = self.set_wall(Coord::new(x, self.height - 1), Direction::North, true);
            proof {
                lemma_or_zero();
                before.lemma_indices();
                let bottom = Coord { x: x, y: 0 };
                let top = Coord { x: x, y: (h - 1) as u8 };
                assert(before.in_bounds(bottom) && before.in_bounds(top));
                assert(mid.walls == before.walls.update(
                    before.index_of(bottom),
                    before.walls[before.index_of(bottom)] | 4u8,
                ));
                assert(self@.walls == mid.walls.update(
                    mid.index_of(top),
                    mid.walls[mid.index_of(top)] | 1u8,
                ));
                assert(mid.known == before.known.update(
                    before.index_of(bottom),
                    before.known[before.index_of(bottom)] | 4u8,
                ));
                assert(self@.known == mid.known.update(
                    mid.index_of(top),
                    mid.known[mid.index_of(top)] | 1u8,
                ));
                assert(outer_bit(w, h, bottom, Direction::South) == 4u8);
                assert(outer_bit(w, h, top, Direction::North) == 1u8);
                assert((0u8 | 4u8) == 4u8);
                assert((4u8 | 0u8) == 4u8);
                assert((0u8 | 0u8) == 0u8);
                assert forall|c: Coord| #[trigger] self@.in_bounds(c) implies {
                    let v = if c.x < x + 1 {
                        outer_bit(w, h, c, Direction::South) | outer_bit(w, h, c, Direction::North)
                    } else {
                        0u8
                    };
                    self@.walls[self@.index_of(c)] == v && self@.known[self@.index_of(c)] == v
                } by {
                    assert(before.in_bounds(c));
                    let sv = outer_bit(w, h, c, Direction::South);
                    let nv = outer_bit(w, h, c, Direction::North);
                    if c == bottom && c == top {
                        assert(sv == 4u8 && nv == 1u8);
                    } else if c == bottom {
                        assert(before.index_of(c) != before.index_of(top));
                        assert(sv == 4u8 && nv == 0u8);
                    } else if c == top {
                        assert(before.index_of(c) != before.index_of(bottom));
                        assert(sv == 0u8 && nv == 1u8);
                        assert((0u8 | 1u8) == 1u8);
                    } else {
                        assert(before.index_of(c) != before.index_of(bottom));
                        assert(before.index_of(c) != before.index_of(top));
                    }
                }
            }
        }
        for y in 0..height
            invariant
                self@.wf(),
                self@.width == w,
                self@.height == h,
                w >= 1,
                h >= 1,
                width == w,
                height == h,
                forall|c: Coord| #[trigger]
                    self@.in_bounds(c) ==> {
                        let sn = outer_bit(w, h, c, Direction::South) | outer_bit(w, h, c, Direction::North);
                        let v = if c.y < y {
                            outer_bits(w, h, c)
                        } else {
                            sn
                        };
                        self@.walls[self@.index_of(c)] == v && self@.known[self@.index_of(c)] == v
                    },
                self@.walls.len() == CELLS,
                self@.known.len() == CELLS,
                forall|i: int| self@.used() <= i < CELLS ==> self@.walls[i] == 0u8 && self@.known[i] == 0u8,
        {
            let ghost before = self@;
            proof {
                before.lemma_wf_stored();
            }
            let _ = self.set_wall(Coord::new(0, y), Direction::West, true);
            let ghost mid = self@;
            proof {
                mid.lemma_wf_stored();
            }
            let _ = self.set_wall(Coord::new(self.width - 1, y), Direction::East, true);
            proof {
                lemma_or_zero();
                before.lemma_indices();
                let first = Coord { x: 0, y: y };
                let last = Coord { x: (w - 1) as u8, y: y };
                assert(before.in_bounds(first) && before.in_bounds(last));
                assert(mid.walls == before.walls.update(
                    before.index_of(first),
                    before.walls[before.index_of(first)] | 8u8,
                ));
                assert(self@.walls == mid.walls.update(
                    mid.index_of(last),
                    mid.walls[mid.index_of(last)] | 2u8,
                ));
                assert(mid.known == before.known.update(
                    before.index_of(first),
                    before.known[before.index_of(first)] | 8u8,
                ));
                assert(self@.known == mid.known.update(
                    mid.index_of(last),
                    mid.known[mid.index_of(last)] | 2u8,
                ));
                assert(outer_bit(w, h, first, Direction::West) == 8u8);
                assert(outer_bit(w, h, last, Direction::East) == 2u8);
                assert forall|c: Coord| #[trigger] self@.in_bounds(c) implies {
                    let sn = outer_bit(w, h, c, Direction::South) | outer_bit(w, h, c, Direction::North);
                    let v = if c.y < y + 1 {
                        outer_bits(w, h, c)
                    } else {
                        sn
                    };
                    self@.walls[self@.index_of(c)] == v && self@.known[self@.index_of(c)] == v
                } by {
                    assert(before.in_bounds(c));
                    let sn = outer_bit(w, h, c, Direction::South) | outer_bit(w, h, c, Direction::North);
                    let wv = outer_bit(w, h, c, Direction::West);
                    let ev = outer_bit(w, h, c, Direction::East);
                    if c == first && c == last {
                        assert(wv == 8u8 && ev == 2u8);
                    } else if c == first {
                        assert(before.index_of(c) != before.index_of(last));
                        assert(wv == 8u8 && ev == 0u8);
                        assert(((sn | 8u8) | 0u8) == sn | 8u8);
                    } else if c == last {
                        assert(before.index_of(c) != before.index_of(first));
                        assert(wv == 0u8 && ev == 2u8);
                        assert((sn | 0u8) == sn);
                    } else {
                        assert(before.index_of(c) != before.index_of(first));
                        assert(before.index_of(c) != before.index_of(last));
                    }
                }
            }
        }
    }

    /// Fills `costs` with the number of open moves from the nearest of the
    /// first `goal_count` goals to each cell in use, `INF_COST` where no goal
    /// leads; slots past the cells in use are left alone.
    pub fn flood_fill<const GOALS: usize>(
        &self,
        goals: &[Coord; GOALS],
        goal_count: usize,
        costs: &mut [u16; CELLS],
        mode: FloodFillMode,
    ) -> (r: Result<(), MazeError>)
        requires
            goal_count <= GOALS ==> self@.wf(),
        ensures
            goal_count > GOALS ==> r == Err::<(), MazeError>(MazeError::TooManyGoals)
                && final(costs)@ == old(costs)@,
            goal_count <= GOALS ==> {
                let sources = goals@.take(goal_count as int);
                &&& r == Err::<(), MazeError>(MazeError::OutOfBounds) <==> exists|j: int|
                    #[trigger] self@.first_stray(sources, j, CELLS as int)
                &&& forall|j: int| #[trigger]
                    self@.first_stray(sources, j, CELLS as int) ==> forall|v: Coord|
                        self@.in_bounds(v) ==> #[trigger] self@.cost_at(final(costs)@, v) == if sources.take(
                            j,
                        ).contains(v) {
                            0int
                        } else {
                            INF_COST as int
                        }
                &&& self@.all_in_bounds(sources) && (sources.no_duplicates() || goal_count
                    + self@.used() <= CELLS + 1) ==> r is Ok
                &&& r is Ok ==> self@.costs_are_distances(mode, sources, final(costs)@)
                &&& r != Err::<(), MazeError>(MazeError::TooManyGoals)
                &&& r != Err::<(), MazeError>(MazeError::InvalidDimensions)
            },
            forall|i: int| self@.used() <= i < CELLS ==> final(costs)@[i] == old(costs)@[i],
    {
        if goal_count > GOALS {
            return Err(MazeError::TooManyGoals);
        }
        let ghost sources = goals@.take(goal_count as int);
        let ghost m = self@;
        proof {
            m.lemma_indices();
            m.lemma_used_small();
        }
        let used = self.used_cells();
        let ghost fits = goal_count + m.used() <= CELLS + 1;
        let mut i: usize = 0;
        while i < used
            invariant
                used == m.used(),
                m.wf(),
                m == self@,
                i <= used,
                costs@.len() == CELLS,
                forall|j: int| 0 <= j < i ==> costs@[j] == INF_COST,
                forall|j: int| i <= j < CELLS ==> costs@[j] == old(costs)@[j],
            decreases used - i,
        {
            costs[i] = INF_COST;
            i += 1;
        }
        let mut queue = FixedQueue::<CELLS>::new();
        let mut g: usize = 0;
        while g < goal_count
            invariant
                m == self@,
                m.wf(),
                used == m.used(),
                goal_count <= GOALS,
                sources == goals@.take(goal_count as int),
                0 <= g <= goal_count,
                g <= CELLS,
                queue.wf(),
                queue@ == sources.take(g as int),
                m.all_in_bounds(sources.take(g as int)),
                costs@.len() == CELLS,
                forall|v: Coord| #[trigger]
                    m.in_bounds(v) ==> m.cost_at(costs@, v) == if sources.take(g as int).contains(v) {
                        0int
                    } else {
                        INF_COST as int
                    },
                forall|j: int| used <= j < CELLS ==> costs@[j] == old(costs)@[j],
            decreases goal_count - g,
        {
            let goal = goals[g];
            proof {
                m.lemma_indices();
                assert(sources[g as int] == goal);
                assert(sources.take(g as int + 1) =~= sources.take(g as int).push(goal));
            }
            let idx = match self.index(goal) {
                Ok(idx) => idx,
                Err(e) => {
                    proof {
                        assert(m.first_stray(sources, g as int, CELLS as int));
                        assert forall|j: int| #[trigger]
                            m.first_stray(sources, j, CELLS as int) implies j == g as int by {
                            if j < g {
                                assert(sources.take(g as int)[j] == sources[j]);
                            } else if j > g {
                                assert(sources.take(j)[g as int] == sources[g as int]);
                            }
                        }
                    }
                    return Err(e);
                },
            };
            costs[idx] = 0;
            let ghost before = queue@;
            match queue.push(goal) {
                Ok(()) => {},
                Err(e) => {
                    proof {
                        assert forall|j: int| !#[trigger] m.first_stray(sources, j, CELLS as int) by {
                            if 0 <= j < g {
                                assert(sources.take(g as int)[j] == sources[j]);
                            }
                        }
                        if fits {
                            assert(m.in_bounds(goal));
                            assert(m.used() >= 1) by (nonlinear_arith)
                                requires
                                    m.width >= 1,
                                    m.height >= 1,
                                    m.used() == m.width as int * m.height as int,
                            ;
                        }
                        if m.all_in_bounds(sources) && sources.no_duplicates() {
                            let t = sources.take(g as int + 1);
                            assert forall|a: int, b: int| 0 <= a < t.len() && 0 <= b < t.len() && a != b implies t[a] != t[b] by {
                                assert(t[a] == sources[a] && t[b] == sources[b]);
                            }
                            assert forall|a: int| 0 <= a < t.len() implies #[trigger] m.in_bounds(t[a]) by {
                                assert(t[a] == sources[a]);
                            }
                            m.lemma_distinct_cells_fit(t);
                        }
                    }
                    return Err(e);
                },
            }
            proof {
                let t0 = sources.take(g as int);
                let t1 = sources.take(g as int + 1);
                assert forall|v: Coord| #[trigger] m.in_bounds(v) implies m.cost_at(costs@, v) == if t1.contains(v) {
                    0int
                } else {
                    INF_COST as int
                } by {
                    if v == goal {
                        assert(t1[g as int] == goal);
                    } else {
                        assert(m.index_of(v) != m.index_of(goal));
                        if t0.contains(v) {
                            let a = choose|a: int| 0 <= a < t0.len() && #[trigger] t0[a] == v;
                            assert(t1[a] == v);
                        }
                        if t1.contains(v) {
                            let a = choose|a: int| 0 <= a < t1.len() && #[trigger] t1[a] == v;
                            assert(t0[a] == v);
                        }
                    }
                }
                assert forall|a: int| 0 <= a < t1.len() implies #[trigger] m.in_bounds(t1[a]) by {
                    if a < g {
                        assert(t1[a] == t0[a]);
                    }
                }
            }
            g += 1;
        }
        proof {
            assert(sources.take(goal_count as int) =~= sources);
            m.lemma_seeded(mode, sources, costs@);
            lemma_inf_count_range(costs@, m.used());
            if goal_count > 0 {
                assert(m.in_bounds(sources[0]));
                assert(m.cost_at(costs@, sources[0]) == 0);
                lemma_inf_count_bounds(costs@, m.used(), m.index_of(sources[0]));
            }
            assert forall|j: int| !#[trigger] m.first_stray(sources, j, CELLS as int) by {
                if 0 <= j < sources.len() {
                    assert(sources.take(goal_count as int)[j] == sources[j]);
                }
            }
        }
        let ghost distinct = sources.no_duplicates();
        loop
            invariant
                m == self@,
                m.wf(),
                used == m.used(),
                goal_count <= GOALS,
                sources == goals@.take(goal_count as int),
                distinct == sources.no_duplicates(),
                m.all_in_bounds(sources),
                forall|j: int| !#[trigger] m.first_stray(sources, j, CELLS as int),
                queue.wf(),
                costs@.len() == CELLS,
                m.bfs_state(mode, sources, queue@, costs@, distinct),
                fits == (goal_count + m.used() <= CELLS + 1),
                fits ==> queue@.len() + inf_count(costs@, m.used()) <= CELLS,
                forall|j: int| used <= j < CELLS ==> costs@[j] == old(costs)@[j],
            ensures
                m.bfs_state(mode, sources, queue@, costs@, distinct),
                queue@.len() == 0,
                forall|j: int| used <= j < CELLS ==> costs@[j] == old(costs)@[j],
            decreases sum_prefix(costs@, m.used()), queue@.len(),
        {
            proof {
                lemma_sum_nonneg(costs@, m.used());
            }
            let ghost before = queue@;
            match queue.pop() {
                None => break,
                Some(cell) => {
                    proof {
                        m.lemma_popped(mode, sources, before, costs@, distinct);
                    }
                    let base = match self.index(cell) {
                        Ok(i) => costs[i],
                        Err(e) => return Err(e),
                    };
                    match self.relax_neighbors(
                        cell,
                        base,
                        costs,
                        &mut queue,
                        mode,
                        Ghost(sources),
                        Ghost(distinct),
                        Ghost(fits),
                    ) {
                        Ok(()) => {},
                        Err(e) => return Err(e),
                    }
                    proof {
                        lemma_sum_nonneg(costs@, m.used());
                    }
                },
            }
        }
        proof {
            assert(queue@ =~= Seq::<Coord>::empty());
            m.lemma_search_done(mode, sources, costs@, distinct);
        }
        Ok(())
    }

    /// Examines the four neighbours of `cell` (cost `base`) and gives each
    /// unreached one reachable by an open move the cost `base + 1`, queueing it.
    fn relax_neighbors(
        &self,
        cell: Coord,
        base: u16,
        costs: &mut [u16; CELLS],
        queue: &mut FixedQueue<CELLS>,
        mode: FloodFillMode,
        Ghost(sources): Ghost<Seq<Coord>>,
        Ghost(distinct): Ghost<bool>,
        Ghost(fits): Ghost<bool>,
    ) -> (r: Result<(), MazeError>)
        requires
            old(queue).wf(),
            old(costs)@.len() == CELLS,
            self@.relaxing(mode, sources, cell, base as int, old(queue)@, old(costs)@, distinct),
            fits ==> old(queue)@.len() + inf_count(old(costs)@, self@.used()) <= CELLS,
        ensures
            fits ==> final(queue)@.len() + inf_count(final(costs)@, self@.used()) <= CELLS,
            final(queue).wf(),
            final(costs)@.len() == CELLS,
            r is Ok ==> self@.bfs_state(mode, sources, final(queue)@, final(costs)@, distinct),
            r is Err ==> r == Err::<(), MazeError>(MazeError::QueueFull) && !distinct && !fits,
            forall|i: int| self@.used() <= i < CELLS ==> final(costs)@[i] == old(costs)@[i],
            sum_prefix(final(costs)@, self@.used()) <= sum_prefix(old(costs)@, self@.used()),
            sum_prefix(final(costs)@, self@.used()) == sum_prefix(old(costs)@, self@.used())
                ==> final(queue)@ == old(queue)@,
    {
        let ghost m = self@;
        proof {
            self.lemma_storage();
        }
        let dirs = Direction::all();
        let mut k: usize = 0;
        while k < 4
            invariant
                m == self@,
                0 <= k <= 4,
                dirs@ == seq![Direction::North, Direction::East, Direction::South, Direction::West],
                queue.wf(),
                costs@.len() == CELLS,
                m.relaxing(mode, sources, cell, base as int, queue@, costs@, distinct),
                fits ==> queue@.len() + inf_count(costs@, m.used()) <= CELLS,
                forall|j: int|
                    0 <= j < k ==> (m.open_move(cell, #[trigger] dirs@[j], mode) ==> m.cost_at(
                        costs@,
                        m.neighbor(cell, dirs@[j])->0,
                    ) <= base + 1),
                forall|i: int| m.used() <= i < CELLS ==> costs@[i] == old(costs)@[i],
                sum_prefix(costs@, m.used()) <= sum_prefix(old(costs)@, m.used()),
                sum_prefix(costs@, m.used()) == sum_prefix(old(costs)@, m.used()) ==> queue@
                    == old(queue)@,
            decreases 4 - k,
        {
            let direction = dirs[k];
            proof {
                m.lemma_wf_stored();
            }
            let movable = match self.can_move(cell, direction, mode) {
                Ok(b) => b,
                Err(e) => return Err(e),
            };
            if movable {
                proof {
                    m.lemma_neighbor_back(cell, direction);
                }
                if let Some(next) = self.neighbor(cell, direction) {
                    let next_idx = match self.index(next) {
                        Ok(i) => i,
                        Err(e) => return Err(e),
                    };
                    let next_cost = base.saturating_add(1);
                    if next_cost < costs[next_idx] {
                        let ghost before_costs = costs@;
                        let ghost before_queue = queue@;
                        proof {
                            m.lemma_used_small();
                            assert(m.cost_at(costs@, next) == costs@[next_idx as int]);
                            assert(m.in_bounds(next));
                            m.lemma_indices();
                            lemma_inf_count_bounds(costs@, m.used(), next_idx as int);
                            lemma_inf_count_update(costs@, m.used(), next_idx as int, next_cost);
                            m.lemma_relax_update(
                                mode,
                                sources,
                                cell,
                                direction,
                                base as int,
                                queue@,
                                costs@,
                                distinct,
                            );
                        }
                        costs[next_idx] = next_cost;
                        proof {
                            assert(costs@ == before_costs.update(m.index_of(next), (base + 1) as u16));
                            assert forall|j: int|
                                0 <= j < k implies (m.open_move(cell, #[trigger] dirs@[j], mode)
                                ==> m.cost_at(costs@, m.neighbor(cell, dirs@[j])->0) <= base + 1) by {
                                if m.open_move(cell, dirs@[j], mode) {
                                    m.lemma_neighbor_back(cell, dirs@[j]);
                                    assert(m.cost_at(before_costs, m.neighbor(cell, dirs@[j])->0) <= base + 1);
                                }
                            }
                        }
                        match queue.push(next) {
                            Ok(()) => {},
                            Err(e) => return Err(e),
                        }
                    }
                }
            }
            k += 1;
        }
        proof {
            assert forall|d: Direction| #[trigger] m.open_move(cell, d, mode) implies m.cost_at(
                costs@,
                m.neighbor(cell, d)->0,
            ) <= m.cost_at(costs@, cell) + 1 by {
                match d {
                    Direction::North => assert(dirs@[0] == d),
                    Direction::East => assert(dirs@[1] == d),
                    Direction::South => assert(dirs@[2] == d),
                    Direction::West => assert(dirs@[3] == d),
                }
            }
            m.lemma_relaxed(mode, sources, cell, base as int, queue@, costs@, distinct);
        }
        Ok(())
    }

    /// The open move from `cell` to the neighbour with the lowest cost below
    /// `INF_COST`, preferring straight on, then left, then right, then back
    /// among equal costs; `None` when every open move leads to `INF_COST`.
    pub fn best_next_direction(
        &self,
        costs: &[u16; CELLS],
        cell: Coord,
        heading: Direction,
        mode: FloodFillMode,
    ) -> (r: Result<Option<Direction>, MazeError>)
        requires
            self@.probes_fit(cell, preferences(heading)),
            self@.any_neighbor(cell) ==> self@.stored(cell),
            forall|d: Direction| #[trigger]
                self@.open_move(cell, d, mode) ==> self@.stored(self@.neighbor(cell, d)->0),
        ensures
            r == if !self@.in_bounds(cell) && self@.any_neighbor(cell) {
                Err::<Option<Direction>, MazeError>(MazeError::OutOfBounds)
            } else {
                Ok::<Option<Direction>, MazeError>(
                    self@.best_choice(costs@, cell, preferences(heading), mode, 4).0,
                )
            },
            r matches Ok(Some(d)) ==> {
                &&& self@.open_move(cell, d, mode)
                &&& self@.cost_at(costs@, self@.neighbor(cell, d)->0) < INF_COST
                &&& forall|e: Direction| #[trigger]
                    self@.open_move(cell, e, mode) ==> self@.cost_at(
                        costs@,
                        self@.neighbor(cell, d)->0,
                    ) <= self@.cost_at(costs@, self@.neighbor(cell, e)->0)
                &&& exists|i: int|
                    0 <= i < 4 && #[trigger] preferences(heading)[i] == d && forall|j: int|
                        0 <= j < i && self@.open_move(cell, #[trigger] preferences(heading)[j], mode)
                            ==> self@.cost_at(costs@, self@.neighbor(cell, d)->0) < self@.cost_at(
                            costs@,
                            self@.neighbor(cell, preferences(heading)[j])->0,
                        )
            },
            r == Ok::<Option<Direction>, MazeError>(None) ==> forall|e: Direction| #[trigger]
                self@.open_move(cell, e, mode) ==> self@.cost_at(
                    costs@,
                    self@.neighbor(cell, e)->0,
                ) == INF_COST,
    {
        let ghost m = self@;
        let ghost prefs = preferences(heading);
        proof {
            self.lemma_storage();
        }
        let preferences = [heading, heading.left(), heading.right(), heading.back()];
        assert(preferences@ =~= prefs);
        let mut best_direction: Option<Direction> = None;
        let mut best_cost: u16 = INF_COST;
        let mut k: usize = 0;
        while k < 4
            invariant
                m == self@,
                m.walls.len() == CELLS,
                m.any_neighbor(cell) ==> m.stored(cell),
                forall|d: Direction| #[trigger]
                    m.open_move(cell, d, mode) ==> m.stored(m.neighbor(cell, d)->0),
                0 <= k <= 4,
                preferences@ == prefs,
                prefs == seq![heading, heading.left(), heading.right(), heading.back()],
                m.probes_fit(cell, prefs),
                m.in_bounds(cell) || forall|j: int| 0 <= j < k ==> #[trigger] m.neighbor(cell, prefs[j]) is None,
                (best_direction, best_cost as int) == m.best_choice(costs@, cell, prefs, mode, k as nat),
            decreases 4 - k,
        {
            let direction = preferences[k];
            proof {
                assert(prefs[k as int] == direction);
                match direction {
                    Direction::North => {},
                    Direction::East => {},
                    Direction::South => {},
                    Direction::West => {},
                }
            }
            let movable = match self.can_move(cell, direction, mode) {
                Ok(b) => b,
                Err(e) => {
                    proof {
                        match direction {
                            Direction::North => {},
                            Direction::East => {},
                            Direction::South => {},
                            Direction::West => {},
                        }
                    }
                    return Err(e);
                },
            };
            if movable {
                proof {
                    assert(m.open_move(cell, direction, mode));
                    m.lemma_neighbor_back(cell, direction);
                    assert(m.stored(m.neighbor(cell, direction)->0));
                }
                if let Some(next) = self.neighbor(cell, direction) {
                    let next_idx = match self.index(next) {
                        Ok(i) => i,
                        Err(e) => return Err(e),
                    };
                    let cost = costs[next_idx];
                    if cost < best_cost {
                        best_cost = cost;
                        best_direction = Some(direction);
                    }
                }
            }
            k += 1;
        }
        proof {
            m.lemma_best_choice_first_cheapest(costs@, cell, prefs, mode, 4);
            assert forall|e: Direction| #[trigger] m.open_move(cell, e, mode) implies exists|j: int|
                0 <= j < 4 && #[trigger] prefs[j] == e by {
                match heading {
                    Direction::North => {},
                    Direction::East => {},
                    Direction::South => {},
                    Direction::West => {},
                }
                if prefs[0] == e {
                } else if prefs[1] == e {
                } else if prefs[2] == e {
                } else {
                    assert(prefs[3] == e);
                }
            }
            if !m.in_bounds(cell) {
                assert(prefs[0] == heading);
                assert(!m.any_neighbor(cell)) by {
                    assert(m.neighbor(cell, prefs[0]) is None);
                    assert(m.neighbor(cell, prefs[1]) is None);
                    assert(m.neighbor(cell, prefs[2]) is None);
                    assert(m.neighbor(cell, prefs[3]) is None);
                    match heading {
                        Direction::North => {},
                        Direction::East => {},
                        Direction::South => {},
                        Direction::West => {},
                    }
                }
            }
        }
        Ok(best_direction)
    }

    /// Records the walls observed from `cell` facing `heading`: ahead, to the
    /// left and to the right, each only when a reading is present.
    pub fn update_from_walls(&mut self, cell: Coord, heading: Direction, readings: WallReadings) -> (r:
        Result<(), MazeError>)
        requires
            readings.front is Some ==> old(self)@.side_stored(cell, heading),
            readings.left is Some ==> old(self)@.side_stored(cell, heading.left()),
            readings.right is Some ==> old(self)@.side_stored(cell, heading.right()),
        ensures
            !old(self)@.in_bounds(cell) && (readings.front is Some || readings.left is Some
                || readings.right is Some) ==> r == Err::<(), MazeError>(MazeError::OutOfBounds)
                && final(self)@ == old(self)@,
            old(self)@.in_bounds(cell) || (readings.front is None && readings.left is None
                && readings.right is None) ==> r is Ok && final(self)@ == old(self)@.after_reading(
                cell,
                heading,
                readings.front,
            ).after_reading(cell, heading.left(), readings.left).after_reading(
                cell,
                heading.right(),
                readings.right,
            ),
            old(self)@.wf() ==> final(self)@.wf(),
            old(self)@.wf() && old(self)@.consistent() ==> final(self)@.consistent(),
            old(self)@.in_bounds(cell) ==> final(self)@ == old(self)@.after_writes(
                reading_writes(cell, heading, readings),
            ),
    {
        let ghost mut writes = Seq::<(Coord, Direction, bool)>::empty();
        proof {
            assert(old(self)@.after_writes(writes) == old(self)@);
        }
        if let Some(present) = readings.front {
            match self.set_wall(cell, heading, present) {
                Ok(()) => {},
                Err(e) => return Err(e),
            }
            proof {
                old(self)@.lemma_after_writes_push(writes, (cell, heading, present));
                writes = writes.push((cell, heading, present));
            }
        }
        if let Some(present) = readings.left {
            match self.set_wall(cell, heading.left(), present) {
                Ok(()) => {},
                Err(e) => return Err(e),
            }
            proof {
                old(self)@.lemma_after_writes_push(writes, (cell, heading.left(), present));
                writes = writes.push((cell, heading.left(), present));
            }
        }
        if let Some(present) = readings.right {
            match self.set_wall(cell, heading.right(), present) {
                Ok(()) => {},
                Err(e) => return Err(e),
            }
            proof {
                old(self)@.lemma_after_writes_push(writes, (cell, heading.right(), present));
                writes = writes.push((cell, heading.right(), present));
            }
        }
        proof {
            assert(writes =~= reading_writes(cell, heading, readings));
        }
        Ok(())
    }
}

} // verus!
