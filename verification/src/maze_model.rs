//! Mathematical model of a maze: its dimensions and the two per-cell bit
//! arrays (walls seen and sides observed), with the meaning of each query
//! and update stated over that model.

use vstd::prelude::*;
use crate::mapping::{Coord, Direction, FloodFillMode, MazeError};

verus! {

/// The abstract state of a maze: its dimensions and, per cell index, the wall
/// bits and the observed-side bits (one bit per direction, see `Direction::bit`).
pub struct MazeView {
    pub width: u8,
    pub height: u8,
    pub walls: Seq<u8>,
    pub known: Seq<u8>,
}

/// Whether a step from `c` towards `d` can be computed in 8-bit coordinates
/// without overflowing.
pub open spec fn step_fits(c: Coord, d: Direction) -> bool {
    match d {
        Direction::North => c.y < 255,
        Direction::East => c.x < 255,
        _ => true,
    }
}

/// Bits of an outer wall on the side `d` of cell `c` in a `w` x `h` maze,
/// zero where that side faces another cell.
pub open spec fn outer_bit(w: u8, h: u8, c: Coord, d: Direction) -> u8 {
    let outer = match d {
        Direction::North => c.y == h - 1,
        Direction::East => c.x == w - 1,
        Direction::South => c.y == 0,
        Direction::West => c.x == 0,
    };
    if outer {
        d.bit()
    } else {
        0u8
    }
}

/// The wall bits of cell `c` of a freshly built `w` x `h` maze: exactly the
/// sides on its border.
pub open spec fn outer_bits(w: u8, h: u8, c: Coord) -> u8 {
    ((outer_bit(w, h, c, Direction::South) | outer_bit(w, h, c, Direction::North)) | outer_bit(
        w,
        h,
        c,
        Direction::West,
    )) | outer_bit(w, h, c, Direction::East)
}

impl MazeView {
    /// Number of cells in use: `width * height`.
    pub open spec fn used(self) -> int {
        self.width as int * self.height as int
    }

    /// The cells in use fit the storage, and both bit arrays have one entry
    /// per stored cell.
    pub open spec fn wf(self) -> bool {
        &&& self.used() <= self.walls.len()
        &&& self.known.len() == self.walls.len()
    }

    pub open spec fn in_bounds(self, c: Coord) -> bool {
        c.x < self.width && c.y < self.height
    }

    /// Row-major position of a cell in the bit arrays.
    pub open spec fn index_of(self, c: Coord) -> int {
        c.y as int * self.width as int + c.x as int
    }

    /// The adjacent cell towards `d`, if it lies inside the maze's rows and
    /// columns on that axis.
    pub open spec fn neighbor(self, c: Coord, d: Direction) -> Option<Coord> {
        match d {
            Direction::North => if c.y + 1 < self.height {
                Some(Coord { x: c.x, y: (c.y + 1) as u8 })
            } else {
                None
            },
            Direction::East => if c.x + 1 < self.width {
                Some(Coord { x: (c.x + 1) as u8, y: c.y })
            } else {
                None
            },
            Direction::South => if c.y > 0 {
                Some(Coord { x: c.x, y: (c.y - 1) as u8 })
            } else {
                None
            },
            Direction::West => if c.x > 0 {
                Some(Coord { x: (c.x - 1) as u8, y: c.y })
            } else {
                None
            },
        }
    }

    pub open spec fn wall_bit(self, c: Coord, d: Direction) -> bool {
        self.walls[self.index_of(c)] & d.bit() != 0
    }

    pub open spec fn known_bit(self, c: Coord, d: Direction) -> bool {
        self.known[self.index_of(c)] & d.bit() != 0
    }

    /// What `Maze::has_wall` answers: a side without a neighbour is always a
    /// wall; otherwise the cell must be inside and its wall bit decides.
    pub open spec fn has_wall(self, c: Coord, d: Direction) -> Result<bool, MazeError> {
        if self.neighbor(c, d) is None {
            Ok(true)
        } else if !self.in_bounds(c) {
            Err(MazeError::OutOfBounds)
        } else {
            Ok(self.wall_bit(c, d))
        }
    }

    /// What `Maze::is_known` answers: a side without a neighbour is always
    /// known; otherwise the cell must be inside and its observed bit decides.
    pub open spec fn is_known(self, c: Coord, d: Direction) -> Result<bool, MazeError> {
        if self.neighbor(c, d) is None {
            Ok(true)
        } else if !self.in_bounds(c) {
            Err(MazeError::OutOfBounds)
        } else {
            Ok(self.known_bit(c, d))
        }
    }

    /// Whether a step from `c` towards `d` is allowed: a neighbour exists, no
    /// wall is recorded, and in `KnownOpenOnly` mode the side has been seen.
    pub open spec fn can_move(self, c: Coord, d: Direction, mode: FloodFillMode) -> Result<
        bool,
        MazeError,
    > {
        if self.neighbor(c, d) is None {
            Ok(false)
        } else if !self.in_bounds(c) {
            Err(MazeError::OutOfBounds)
        } else if self.wall_bit(c, d) {
            Ok(false)
        } else {
            match mode {
                FloodFillMode::ExploreUnknownAsOpen => Ok(true),
                FloodFillMode::KnownOpenOnly => Ok(self.known_bit(c, d)),
            }
        }
    }

    pub open spec fn open_move(self, c: Coord, d: Direction, mode: FloodFillMode) -> bool {
        self.can_move(c, d, mode) == Ok::<bool, MazeError>(true)
    }

    /// The maze after recording that the side `d` of the in-bounds cell `c`
    /// is (`present`) or is not a wall: the side becomes observed on both
    /// cells that share it, and the wall bit is set on both (a side without a
    /// neighbour always keeps its wall) or cleared on both.
    pub open spec fn after_set_wall(self, c: Coord, d: Direction, present: bool) -> MazeView {
        let i = self.index_of(c);
        let b = d.bit();
        let known1 = self.known.update(i, self.known[i] | b);
        let walls1 = self.walls.update(
            i,
            if present || self.neighbor(c, d) is None {
                self.walls[i] | b
            } else {
                self.walls[i] & !b
            },
        );
        match self.neighbor(c, d) {
            None => MazeView { width: self.width, height: self.height, walls: walls1, known: known1 },
            Some(o) => {
                let j = self.index_of(o);
                let ob = d.back().bit();
                MazeView {
                    width: self.width,
                    height: self.height,
                    walls: walls1.update(
                        j,
                        if present {
                            walls1[j] | ob
                        } else {
                            walls1[j] & !ob
                        },
                    ),
                    known: known1.update(j, known1[j] | ob),
                }
            },
        }
    }
}

/// Row-major indices of in-bounds cells lie below `width * height`.
pub proof fn lemma_index_in_range(w: int, h: int, x: int, y: int)
    requires
        0 <= x < w,
        0 <= y < h,
    ensures
        0 <= y * w + x < w * h,
{
    assert(0 <= y * w + x < w * h) by (nonlinear_arith)
        requires
            0 <= x < w,
            0 <= y < h,
    ;
}

/// Distinct in-bounds cells have distinct row-major indices.
pub proof fn lemma_index_injective(w: int, x1: int, y1: int, x2: int, y2: int)
    requires
        0 <= x1 < w,
        0 <= x2 < w,
        0 <= y1,
        0 <= y2,
        y1 * w + x1 == y2 * w + x2,
    ensures
        x1 == x2,
        y1 == y2,
{
    if y1 < y2 {
        assert(y1 * w + w <= y2 * w) by (nonlinear_arith)
            requires
                y1 < y2,
                0 <= w,
        ;
    } else if y2 < y1 {
        assert(y2 * w + w <= y1 * w) by (nonlinear_arith)
            requires
                y2 < y1,
                0 <= w,
        ;
    }
}

impl MazeView {
    /// Indices of in-bounds cells are in range and tell cells apart.
    pub proof fn lemma_indices(self)
        ensures
            forall|c: Coord| #[trigger]
                self.in_bounds(c) ==> 0 <= self.index_of(c) < self.used(),
            forall|c1: Coord, c2: Coord|
                self.in_bounds(c1) && self.in_bounds(c2) && #[trigger] self.index_of(c1)
                    == #[trigger] self.index_of(c2) ==> c1 == c2,
    {
        assert forall|c: Coord| #[trigger] self.in_bounds(c) implies 0 <= self.index_of(c)
            < self.used() by {
            lemma_index_in_range(self.width as int, self.height as int, c.x as int, c.y as int);
        }
        assert forall|c1: Coord, c2: Coord|
            self.in_bounds(c1) && self.in_bounds(c2) && #[trigger] self.index_of(c1)
                == #[trigger] self.index_of(c2) implies c1 == c2 by {
            lemma_index_injective(
                self.width as int,
                c1.x as int,
                c1.y as int,
                c2.x as int,
                c2.y as int,
            );
        }
    }

    /// A neighbour of an in-bounds cell is in bounds, and stepping back from
    /// it returns to the cell.
    pub proof fn lemma_neighbor_back(self, c: Coord, d: Direction)
        requires
            self.in_bounds(c),
            self.neighbor(c, d) is Some,
        ensures
            self.in_bounds(self.neighbor(c, d)->0),
            self.neighbor(self.neighbor(c, d)->0, d.back()) == Some(c),
            self.neighbor(c, d)->0 != c,
    {
    }
}

impl MazeView {
    /// The state of a freshly built maze: every in-bounds cell has exactly
    /// its border sides walled and observed, and the unused slots are clear.
    pub open spec fn outer_walls_only(self) -> bool {
        &&& forall|c: Coord| #[trigger]
            self.in_bounds(c) ==> self.walls[self.index_of(c)] == outer_bits(
                self.width,
                self.height,
                c,
            ) && self.known[self.index_of(c)] == outer_bits(self.width, self.height, c)
        &&& forall|i: int| self.used() <= i < self.walls.len() ==> self.walls[i] == 0u8
        &&& forall|i: int| self.used() <= i < self.known.len() ==> self.known[i] == 0u8
    }
}

/// Zero is the identity of bitwise or.
pub proof fn lemma_or_zero()
    by (bit_vector)
    ensures
        forall|a: u8| #[trigger] (0u8 | a) == a,
        forall|a: u8| #[trigger] (a | 0u8) == a,
{
}

impl MazeView {
    /// The maze after an optional observation of the side `d` of `c`.
    pub open spec fn after_reading(self, c: Coord, d: Direction, reading: Option<bool>) -> MazeView {
        match reading {
            Some(present) => self.after_set_wall(c, d, present),
            None => self,
        }
    }
}

impl MazeView {
    /// When `c` is in bounds, its slot lies inside the storage.
    pub open spec fn stored(self, c: Coord) -> bool {
        self.in_bounds(c) ==> self.index_of(c) < self.walls.len()
    }

    /// When `c` is in bounds, the slots of `c` and of its neighbour towards
    /// `d` (if any) lie inside the storage: what recording that side touches.
    pub open spec fn side_stored(self, c: Coord, d: Direction) -> bool {
        self.in_bounds(c) ==> {
            &&& self.index_of(c) < self.walls.len()
            &&& self.neighbor(c, d) matches Some(o) ==> self.index_of(o) < self.walls.len()
        }
    }
}

impl MazeView {
    /// In a well-formed maze every in-bounds cell and its neighbours are stored.
    pub proof fn lemma_wf_stored(self)
        requires
            self.wf(),
        ensures
            forall|c: Coord| #[trigger] self.stored(c),
            forall|c: Coord, d: Direction| #[trigger] self.side_stored(c, d),
    {
        self.lemma_indices();
        assert forall|c: Coord, d: Direction| #[trigger] self.side_stored(c, d) by {
            if self.in_bounds(c) && self.neighbor(c, d) is Some {
                self.lemma_neighbor_back(c, d);
            }
        }
    }
}

} // verus!
