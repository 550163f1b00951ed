//! Properties of the maze that span several operations: what a recorded
//! wall reads back as, the agreement of the two sides of every shared wall,
//! and the descent that flood-fill costs guarantee.

use vstd::prelude::*;
use crate::mapping::{Coord, Direction, FloodFillMode, WallReadings, INF_COST};
use crate::maze_model::{MazeView, outer_bit, outer_bits};
use crate::flood::preferences;

verus! {

/// Setting a single-bit flag makes it read as set, clearing it makes it read
/// as clear, and neither touches a different single-bit flag.
proof fn lemma_flag_bits(x: u8, b: u8, b2: u8)
    by (bit_vector)
    requires
        b == 1u8 || b == 2u8 || b == 4u8 || b == 8u8,
        b2 == 1u8 || b2 == 2u8 || b2 == 4u8 || b2 == 8u8,
    ensures
        (x | b) & b != 0,
        (x & !b) & b == 0,
        b != b2 ==> (x | b) & b2 == x & b2,
        b != b2 ==> (x & !b) & b2 == x & b2,
{
}

/// Setting or clearing a flag twice is the same as once, and the second of
/// two writes to a flag decides it.
proof fn lemma_flag_rewrite(x: u8, b: u8)
    by (bit_vector)
    ensures
        (x | b) | b == x | b,
        (x & !b) | b == x | b,
        (x | b) & !b == x & !b,
        (x & !b) & !b == x & !b,
{
}

/// In a freshly built cell's bits, a side's flag is set exactly when that
/// side lies on the border.
proof fn lemma_outer_flags(s: u8, n: u8, w: u8, e: u8)
    by (bit_vector)
    requires
        s == 0u8 || s == 4u8,
        n == 0u8 || n == 1u8,
        w == 0u8 || w == 8u8,
        e == 0u8 || e == 2u8,
    ensures
        ((((s | n) | w) | e) & 4u8 != 0) == (s == 4u8),
        ((((s | n) | w) | e) & 1u8 != 0) == (n == 1u8),
        ((((s | n) | w) | e) & 8u8 != 0) == (w == 8u8),
        ((((s | n) | w) | e) & 2u8 != 0) == (e == 2u8),
{
}

/// The wall records that `update_from_walls` makes: ahead, to the left and
/// to the right of `heading`, each only when a reading is present.
pub open spec fn reading_writes(cell: Coord, heading: Direction, readings: WallReadings) -> Seq<
    (Coord, Direction, bool),
> {
    let front = match readings.front {
        Some(p) => seq![(cell, heading, p)],
        None => Seq::empty(),
    };
    let left = match readings.left {
        Some(p) => seq![(cell, heading.left(), p)],
        None => Seq::empty(),
    };
    let right = match readings.right {
        Some(p) => seq![(cell, heading.right(), p)],
        None => Seq::empty(),
    };
    front + left + right
}

impl MazeView {
    /// Both sides of every shared wall agree on whether it is a wall and on
    /// whether it has been observed.
    pub open spec fn consistent(self) -> bool {
        forall|c: Coord, d: Direction|
            #![trigger self.neighbor(c, d), self.wall_bit(c, d)]
            self.in_bounds(c) && self.neighbor(c, d) is Some ==> {
                &&& self.wall_bit(c, d) == self.wall_bit(self.neighbor(c, d)->0, d.back())
                &&& self.known_bit(c, d) == self.known_bit(self.neighbor(c, d)->0, d.back())
            }
    }

    /// Recording a wall is read back: the side written reads as the given
    /// state (a border side stays a wall), the neighbour's facing side reads
    /// the same, both sides read as observed, and every other side of every
    /// in-bounds cell reads as before.
    pub proof fn lemma_set_wall_reads_back(self, c: Coord, d: Direction, present: bool)
        requires
            self.wf(),
            self.in_bounds(c),
        ensures
            ({
                let after = self.after_set_wall(c, d, present);
                &&& after.wf()
                &&& after.width == self.width
                &&& after.height == self.height
                &&& after.has_wall(c, d) == Ok::<bool, crate::mapping::MazeError>(
                    present || self.neighbor(c, d) is None,
                )
                &&& after.is_known(c, d) == Ok::<bool, crate::mapping::MazeError>(true)
                &&& self.neighbor(c, d) matches Some(o) ==> {
                    &&& after.has_wall(o, d.back()) == Ok::<bool, crate::mapping::MazeError>(present)
                    &&& after.is_known(o, d.back()) == Ok::<bool, crate::mapping::MazeError>(true)
                }
                &&& forall|c2: Coord, d2: Direction|
                    #![trigger after.wall_bit(c2, d2)]
                    #![trigger after.known_bit(c2, d2)]
                    self.in_bounds(c2) && !(c2 == c && d2 == d) && !(self.neighbor(c, d) == Some(c2)
                        && d2 == d.back()) ==> after.wall_bit(c2, d2) == self.wall_bit(c2, d2)
                        && after.known_bit(c2, d2) == self.known_bit(c2, d2)
            }),
    {
        let after = self.after_set_wall(c, d, present);
        self.lemma_indices();
        let i = self.index_of(c);
        let b = d.bit();
        lemma_flag_bits(self.known[i], b, b);
        lemma_flag_bits(self.walls[i], b, b);
        if let Some(o) = self.neighbor(c, d) {
            self.lemma_neighbor_back(c, d);
            let j = self.index_of(o);
            assert(i != j);
            let ob = d.back().bit();
            let known1 = self.known.update(i, self.known[i] | b);
            let walls1 = self.walls.update(
                i,
                if present {
                    self.walls[i] | b
                } else {
                    self.walls[i] & !b
                },
            );
            lemma_flag_bits(known1[j], ob, ob);
            lemma_flag_bits(walls1[j], ob, ob);
        }
        assert forall|c2: Coord, d2: Direction|
            self.in_bounds(c2) && !(c2 == c && d2 == d) && !(self.neighbor(c, d) == Some(c2) && d2
                == d.back()) implies #[trigger] after.wall_bit(c2, d2) == self.wall_bit(c2, d2)
            && after.known_bit(c2, d2) == self.known_bit(c2, d2) by {
            let k = self.index_of(c2);
            let b2 = d2.bit();
            lemma_flag_bits(self.known[k], b, b2);
            lemma_flag_bits(self.walls[k], b, b2);
            if let Some(o) = self.neighbor(c, d) {
                self.lemma_neighbor_back(c, d);
                let ob = d.back().bit();
                let known1 = self.known.update(i, self.known[i] | b);
                let walls1 = self.walls.update(
                    i,
                    if present {
                        self.walls[i] | b
                    } else {
                        self.walls[i] & !b
                    },
                );
                lemma_flag_bits(known1[k], ob, b2);
                lemma_flag_bits(walls1[k], ob, b2);
                if c2 == c {
                    assert(d2 != d);
                    assert(k != self.index_of(o));
                } else if c2 == o {
                    assert(d2 != d.back());
                    assert(k != i);
                } else {
                    assert(k != i);
                    assert(k != self.index_of(o));
                }
            } else {
                if c2 == c {
                    assert(d2 != d);
                } else {
                    assert(k != i);
                }
            }
        }
        assert forall|c2: Coord, d2: Direction|
            self.in_bounds(c2) && !(c2 == c && d2 == d) && !(self.neighbor(c, d) == Some(c2) && d2
                == d.back()) implies #[trigger] after.known_bit(c2, d2) == self.known_bit(c2, d2) by {
            assert(after.wall_bit(c2, d2) == self.wall_bit(c2, d2));
        }
    }

    /// A freshly built maze is consistent: only border sides are walled
    /// and observed, and a border side has no neighbour to disagree with.
    pub proof fn lemma_fresh_consistent(self)
        requires
            self.wf(),
            self.outer_walls_only(),
        ensures
            self.consistent(),
    {
        self.lemma_indices();
        assert forall|c: Coord, d: Direction|
            #![trigger self.neighbor(c, d), self.wall_bit(c, d)]
            self.in_bounds(c) && self.neighbor(c, d) is Some implies {
            &&& self.wall_bit(c, d) == self.wall_bit(self.neighbor(c, d)->0, d.back())
            &&& self.known_bit(c, d) == self.known_bit(self.neighbor(c, d)->0, d.back())
        } by {
            let o = self.neighbor(c, d)->0;
            self.lemma_neighbor_back(c, d);
            let w = self.width;
            let h = self.height;
            assert(self.walls[self.index_of(c)] == outer_bits(w, h, c));
            assert(self.walls[self.index_of(o)] == outer_bits(w, h, o));
            lemma_outer_flags(
                outer_bit(w, h, c, Direction::South),
                outer_bit(w, h, c, Direction::North),
                outer_bit(w, h, c, Direction::West),
                outer_bit(w, h, c, Direction::East),
            );
            lemma_outer_flags(
                outer_bit(w, h, o, Direction::South),
                outer_bit(w, h, o, Direction::North),
                outer_bit(w, h, o, Direction::West),
                outer_bit(w, h, o, Direction::East),
            );
        }
    }

    /// Recording a wall keeps a consistent maze consistent.
    pub proof fn lemma_set_wall_consistent(self, c: Coord, d: Direction, present: bool)
        requires
            self.wf(),
            self.consistent(),
            self.in_bounds(c),
        ensures
            self.after_set_wall(c, d, present).consistent(),
    {
        let after = self.after_set_wall(c, d, present);
        self.lemma_set_wall_reads_back(c, d, present);
        assert forall|c2: Coord, d2: Direction|
            #![trigger after.neighbor(c2, d2), after.wall_bit(c2, d2)]
            after.in_bounds(c2) && after.neighbor(c2, d2) is Some implies {
            &&& after.wall_bit(c2, d2) == after.wall_bit(after.neighbor(c2, d2)->0, d2.back())
            &&& after.known_bit(c2, d2) == after.known_bit(after.neighbor(c2, d2)->0, d2.back())
        } by {
            let o2 = self.neighbor(c2, d2)->0;
            self.lemma_neighbor_back(c2, d2);
            assert(d2.back().back() == d2);
            assert(self.wall_bit(c2, d2) == self.wall_bit(o2, d2.back()));
            if c2 == c && d2 == d {
            } else if self.neighbor(c, d) == Some(c2) && d2 == d.back() {
                self.lemma_neighbor_back(c, d);
                assert(o2 == c);
            } else {
                assert(after.wall_bit(c2, d2) == self.wall_bit(c2, d2));
                if o2 == c && d2.back() == d {
                    assert(self.neighbor(c, d) == Some(c2));
                } else if self.neighbor(c, d) == Some(o2) && d2.back() == d.back() {
                    assert(d2 == d);
                    self.lemma_neighbor_back(c, d);
                } else {
                    assert(after.wall_bit(o2, d2.back()) == self.wall_bit(o2, d2.back()));
                    assert(after.known_bit(o2, d2.back()) == self.known_bit(o2, d2.back()));
                }
            }
        }
    }

    /// In a consistent maze an open move can be retraced: the step back from
    /// the cell reached is open too.
    pub proof fn lemma_open_move_reversible(self, u: Coord, e: Direction, mode: FloodFillMode)
        requires
            self.consistent(),
            self.open_move(u, e, mode),
        ensures
            self.in_bounds(u),
            self.neighbor(u, e) is Some,
            self.open_move(self.neighbor(u, e)->0, e.back(), mode),
            self.neighbor(self.neighbor(u, e)->0, e.back()) == Some(u),
    {
        self.lemma_neighbor_back(u, e);
        let v = self.neighbor(u, e)->0;
        assert(self.wall_bit(u, e) == self.wall_bit(v, e.back()));
        assert(self.known_bit(u, e) == self.known_bit(v, e.back()));
    }

    /// Flood-fill costs lead home: from an in-bounds cell of finite, nonzero
    /// cost in a consistent maze, the move chosen among any heading's
    /// preferences is open and lands on a cell costing exactly one less.
    pub proof fn lemma_best_move_descends(
        self,
        mode: FloodFillMode,
        sources: Seq<Coord>,
        costs: Seq<u16>,
        cell: Coord,
        heading: Direction,
    )
        requires
            self.wf(),
            self.consistent(),
            costs.len() >= self.used(),
            self.costs_are_distances(mode, sources, costs),
            self.in_bounds(cell),
            0 < self.cost_at(costs, cell) < INF_COST,
        ensures
            self.best_choice(costs, cell, preferences(heading), mode, 4).0 matches Some(d) && {
                &&& self.open_move(cell, d, mode)
                &&& self.cost_at(costs, self.neighbor(cell, d)->0) == self.cost_at(costs, cell) - 1
            },
    {
        let c = self.cost_at(costs, cell);
        let prefs = preferences(heading);
        assert(self.reachable_within(mode, sources, cell, c as nat));
        if self.reachable_within(mode, sources, cell, (c - 1) as nat) {
            assert(c <= c - 1);
        }
        let u = choose|u: Coord|
            self.reachable_within(mode, sources, u, (c - 1) as nat) && #[trigger] self.steps_to(
                mode,
                u,
                cell,
            );
        let e = if self.open_move(u, Direction::North, mode) && self.neighbor(u, Direction::North)
            == Some(cell) {
            Direction::North
        } else if self.open_move(u, Direction::East, mode) && self.neighbor(u, Direction::East)
            == Some(cell) {
            Direction::East
        } else if self.open_move(u, Direction::South, mode) && self.neighbor(u, Direction::South)
            == Some(cell) {
            Direction::South
        } else {
            Direction::West
        };
        self.lemma_open_move_reversible(u, e, mode);
        assert(self.in_bounds(u));
        assert(self.reachable_within(mode, sources, u, (c - 1) as nat));
        assert(self.cost_at(costs, u) <= c - 1);
        let back = e.back();
        assert(prefs[0] == heading && prefs[1] == heading.left() && prefs[2] == heading.right()
            && prefs[3] == heading.back());
        let bi: int = if prefs[0] == back {
            0
        } else if prefs[1] == back {
            1
        } else if prefs[2] == back {
            2
        } else {
            3
        };
        assert(prefs[bi] == back) by {
            match heading {
                Direction::North => {},
                Direction::East => {},
                Direction::South => {},
                Direction::West => {},
            }
        }
        self.lemma_best_choice_minimal(costs, cell, prefs, mode, 4);
        assert(self.open_move(cell, prefs[bi], mode));
        let (choice, best) = self.best_choice(costs, cell, prefs, mode, 4);
        assert(best <= self.cost_at(costs, u));
        let d = choice->0;
        let w = self.neighbor(cell, d)->0;
        self.lemma_open_move_reversible(cell, d, mode);
        assert(self.steps_to(mode, w, cell)) by {
            match d {
                Direction::North => {},
                Direction::East => {},
                Direction::South => {},
                Direction::West => {},
            }
        }
        assert(self.in_bounds(w));
        let n: nat = (self.cost_at(costs, w) + 1) as nat;
        assert(self.reachable_within(mode, sources, w, (n - 1) as nat));
        assert(self.reachable_within(mode, sources, cell, n));
    }

    /// Recording a side is idempotent, the last of two records of a side
    /// wins, and recording a shared side from either of its two cells gives
    /// the same maze.
    pub proof fn lemma_set_wall_algebra(self, c: Coord, d: Direction, p: bool, q: bool)
        requires
            self.wf(),
            self.in_bounds(c),
        ensures
            self.after_set_wall(c, d, p).after_set_wall(c, d, p) == self.after_set_wall(c, d, p),
            self.after_set_wall(c, d, q).after_set_wall(c, d, p) == self.after_set_wall(c, d, p),
            self.neighbor(c, d) matches Some(n) ==> self.after_set_wall(n, d.back(), p)
                == self.after_set_wall(c, d, p),
    {
        self.lemma_indices();
        let i = self.index_of(c);
        let b = d.bit();
        lemma_flag_rewrite(self.walls[i], b);
        lemma_flag_rewrite(self.known[i], b);
        let a = self.after_set_wall(c, d, p);
        let aq = self.after_set_wall(c, d, q);
        if let Some(n) = self.neighbor(c, d) {
            self.lemma_neighbor_back(c, d);
            let j = self.index_of(n);
            let ob = d.back().bit();
            assert(i != j);
            lemma_flag_rewrite(self.walls[j], ob);
            lemma_flag_rewrite(self.known[j], ob);
            assert(d.back().back() == d);
            let sym = self.after_set_wall(n, d.back(), p);
            assert(sym.walls =~= a.walls);
            assert(sym.known =~= a.known);
            assert(a.after_set_wall(c, d, p).walls =~= a.walls);
            assert(a.after_set_wall(c, d, p).known =~= a.known);
            assert(aq.after_set_wall(c, d, p).walls =~= a.walls);
            assert(aq.after_set_wall(c, d, p).known =~= a.known);
        } else {
            assert(a.after_set_wall(c, d, p).walls =~= a.walls);
            assert(a.after_set_wall(c, d, p).known =~= a.known);
            assert(aq.after_set_wall(c, d, p).walls =~= a.walls);
            assert(aq.after_set_wall(c, d, p).known =~= a.known);
        }
    }

    /// The maze after recording, in order, each `(cell, side, present)` of
    /// `writes`, the way `set_wall` does; a record for a cell outside the
    /// maze changes nothing.
    pub open spec fn after_writes(self, writes: Seq<(Coord, Direction, bool)>) -> MazeView
        decreases writes.len(),
    {
        if writes.len() == 0 {
            self
        } else {
            let m = self.after_writes(writes.drop_last());
            let w = writes.last();
            if m.in_bounds(w.0) {
                m.after_set_wall(w.0, w.1, w.2)
            } else {
                m
            }
        }
    }

    /// Any run of wall records keeps a consistent maze well-formed,
    /// consistent and of the same dimensions.
    pub proof fn lemma_writes_keep_consistent(self, writes: Seq<(Coord, Direction, bool)>)
        requires
            self.wf(),
            self.consistent(),
        ensures
            self.after_writes(writes).wf(),
            self.after_writes(writes).consistent(),
            self.after_writes(writes).width == self.width,
            self.after_writes(writes).height == self.height,
        decreases writes.len(),
    {
        if writes.len() > 0 {
            self.lemma_writes_keep_consistent(writes.drop_last());
            let m = self.after_writes(writes.drop_last());
            let w = writes.last();
            if m.in_bounds(w.0) {
                m.lemma_set_wall_reads_back(w.0, w.1, w.2);
                m.lemma_set_wall_consistent(w.0, w.1, w.2);
            }
        }
    }

    /// Every maze built by `Maze::new` and then changed by any run of wall
    /// records has both sides of every shared wall agreeing: on whether it
    /// is a wall and on whether it has been observed.
    pub proof fn lemma_built_maze_consistent(self, writes: Seq<(Coord, Direction, bool)>)
        requires
            self.wf(),
            self.outer_walls_only(),
        ensures
            self.after_writes(writes).consistent(),
            forall|c: Coord, d: Direction|
                #![trigger self.after_writes(writes).has_wall(c, d)]
                self.in_bounds(c) && self.neighbor(c, d) is Some ==> {
                    let m = self.after_writes(writes);
                    let n = self.neighbor(c, d)->0;
                    &&& m.has_wall(c, d) == m.has_wall(n, d.back())
                    &&& m.is_known(c, d) == m.is_known(n, d.back())
                },
    {
        self.lemma_fresh_consistent();
        self.lemma_writes_keep_consistent(writes);
        let m = self.after_writes(writes);
        assert forall|c: Coord, d: Direction|
            #![trigger self.after_writes(writes).has_wall(c, d)]
            self.in_bounds(c) && self.neighbor(c, d) is Some implies {
                let n = self.neighbor(c, d)->0;
                &&& m.has_wall(c, d) == m.has_wall(n, d.back())
                &&& m.is_known(c, d) == m.is_known(n, d.back())
            } by {
            self.lemma_neighbor_back(c, d);
            assert(m.wall_bit(c, d) == m.wall_bit(m.neighbor(c, d)->0, d.back()));
        }
    }

    /// One more record after a run is one more step of the run.
    pub proof fn lemma_after_writes_push(
        self,
        writes: Seq<(Coord, Direction, bool)>,
        w: (Coord, Direction, bool),
    )
        ensures
            self.after_writes(writes.push(w)) == ({
                let m = self.after_writes(writes);
                if m.in_bounds(w.0) {
                    m.after_set_wall(w.0, w.1, w.2)
                } else {
                    m
                }
            }),
            self.after_writes(writes).width == self.width,
            self.after_writes(writes).height == self.height,
        decreases writes.len(),
    {
        assert(writes.push(w).drop_last() =~= writes);
        if writes.len() > 0 {
            self.lemma_after_writes_push(writes.drop_last(), writes.last());
            assert(writes.drop_last().push(writes.last()) =~= writes);
        }
    }

    /// With unobserved sides treated as open, every move allowed on known
    /// sides only is still allowed.
    pub proof fn lemma_known_moves_are_explore_moves(self)
        ensures
            forall|u: Coord, e: Direction| #[trigger]
                self.open_move(u, e, FloodFillMode::KnownOpenOnly) ==> self.open_move(
                    u,
                    e,
                    FloodFillMode::ExploreUnknownAsOpen,
                ),
    {
    }

    /// Recording a wall (`present` true) only takes moves away, in either mode.
    pub proof fn lemma_added_wall_removes_moves(self, c: Coord, d: Direction, mode: FloodFillMode)
        requires
            self.wf(),
            self.in_bounds(c),
        ensures
            forall|u: Coord, e: Direction| #[trigger]
                self.after_set_wall(c, d, true).open_move(u, e, mode) ==> self.open_move(u, e, mode),
    {
        let after = self.after_set_wall(c, d, true);
        self.lemma_set_wall_reads_back(c, d, true);
        assert forall|u: Coord, e: Direction| #[trigger]
            after.open_move(u, e, mode) implies self.open_move(u, e, mode) by {
            assert(after.in_bounds(u));
            assert(!after.wall_bit(u, e));
            if u == c && e == d {
                assert(after.has_wall(c, d) == Ok::<bool, crate::mapping::MazeError>(true));
            } else if self.neighbor(c, d) == Some(u) && e == d.back() {
                assert(after.has_wall(u, d.back()) == Ok::<bool, crate::mapping::MazeError>(true));
            } else {
                assert(after.wall_bit(u, e) == self.wall_bit(u, e));
                assert(after.known_bit(u, e) == self.known_bit(u, e));
            }
        }
    }
}

/// Reachability carries over from one maze and mode to another of the same
/// dimensions that allows every move the first allows.
pub proof fn lemma_reach_carries_over(
    m1: MazeView,
    mode1: FloodFillMode,
    m2: MazeView,
    mode2: FloodFillMode,
    sources: Seq<Coord>,
    v: Coord,
    n: nat,
)
    requires
        m1.width == m2.width,
        m1.height == m2.height,
        forall|u: Coord, e: Direction| #[trigger]
            m1.open_move(u, e, mode1) ==> m2.open_move(u, e, mode2),
        m1.reachable_within(mode1, sources, v, n),
    ensures
        m2.reachable_within(mode2, sources, v, n),
    decreases n,
{
    if n > 0 {
        if m1.reachable_within(mode1, sources, v, (n - 1) as nat) {
            lemma_reach_carries_over(m1, mode1, m2, mode2, sources, v, (n - 1) as nat);
        } else {
            let u = choose|u: Coord|
                m1.reachable_within(mode1, sources, u, (n - 1) as nat) && #[trigger] m1.steps_to(
                    mode1,
                    u,
                    v,
                );
            lemma_reach_carries_over(m1, mode1, m2, mode2, sources, u, (n - 1) as nat);
            assert(m2.steps_to(mode2, u, v)) by {
                assert(m1.open_move(u, Direction::North, mode1) ==> m2.open_move(u, Direction::North, mode2));
                assert(m1.open_move(u, Direction::East, mode1) ==> m2.open_move(u, Direction::East, mode2));
                assert(m1.open_move(u, Direction::South, mode1) ==> m2.open_move(u, Direction::South, mode2));
                assert(m1.open_move(u, Direction::West, mode1) ==> m2.open_move(u, Direction::West, mode2));
            }
        }
    }
}

/// Flood-fill costs never rise when moves are added: if every move that the
/// first maze and mode allows is allowed by the second (same dimensions),
/// every cell costs no more under the second.
pub proof fn lemma_costs_monotone(
    m1: MazeView,
    mode1: FloodFillMode,
    costs1: Seq<u16>,
    m2: MazeView,
    mode2: FloodFillMode,
    costs2: Seq<u16>,
    sources: Seq<Coord>,
)
    requires
        m1.width == m2.width,
        m1.height == m2.height,
        forall|u: Coord, e: Direction| #[trigger]
            m1.open_move(u, e, mode1) ==> m2.open_move(u, e, mode2),
        m1.costs_are_distances(mode1, sources, costs1),
        m2.costs_are_distances(mode2, sources, costs2),
    ensures
        forall|v: Coord| #[trigger]
            m1.in_bounds(v) ==> m2.cost_at(costs2, v) <= m1.cost_at(costs1, v),
{
    assert forall|v: Coord| #[trigger] m1.in_bounds(v) implies m2.cost_at(costs2, v) <= m1.cost_at(
        costs1,
        v,
    ) by {
        assert(m2.in_bounds(v));
        let c = m1.cost_at(costs1, v);
        if c < INF_COST {
            assert(m1.reachable_within(mode1, sources, v, c as nat));
            lemma_reach_carries_over(m1, mode1, m2, mode2, sources, v, c as nat);
            assert(m2.reachable_within(mode2, sources, v, c as nat));
        }
    }
}

/// Treating unobserved sides as open never lengthens a route: on one maze,
/// the `ExploreUnknownAsOpen` cost of every cell is at most its
/// `KnownOpenOnly` cost.
pub proof fn lemma_explore_costs_at_most_known(
    m: MazeView,
    sources: Seq<Coord>,
    explore: Seq<u16>,
    known: Seq<u16>,
)
    requires
        m.costs_are_distances(FloodFillMode::ExploreUnknownAsOpen, sources, explore),
        m.costs_are_distances(FloodFillMode::KnownOpenOnly, sources, known),
    ensures
        forall|v: Coord| #[trigger]
            m.in_bounds(v) ==> m.cost_at(explore, v) <= m.cost_at(known, v),
{
    m.lemma_known_moves_are_explore_moves();
    lemma_costs_monotone(
        m,
        FloodFillMode::KnownOpenOnly,
        known,
        m,
        FloodFillMode::ExploreUnknownAsOpen,
        explore,
        sources,
    );
}

/// Adding a wall never shortens a route: after recording a wall on a side
/// of an in-bounds cell, every cell costs at least what it cost before.
pub proof fn lemma_added_wall_costs_no_less(
    m: MazeView,
    c: Coord,
    d: Direction,
    mode: FloodFillMode,
    sources: Seq<Coord>,
    before: Seq<u16>,
    after: Seq<u16>,
)
    requires
        m.wf(),
        m.in_bounds(c),
        m.costs_are_distances(mode, sources, before),
        m.after_set_wall(c, d, true).costs_are_distances(mode, sources, after),
    ensures
        forall|v: Coord| #[trigger]
            m.in_bounds(v) ==> m.cost_at(before, v) <= m.cost_at(after, v),
{
    let m2 = m.after_set_wall(c, d, true);
    m.lemma_added_wall_removes_moves(c, d, mode);
    lemma_costs_monotone(m2, mode, after, m, mode, before, sources);
    assert forall|v: Coord| #[trigger] m.in_bounds(v) implies m.cost_at(before, v) <= m.cost_at(
        after,
        v,
    ) by {
        assert(m2.in_bounds(v));
    }
}

/// On any maze built by `Maze::new` and then changed by any run of wall
/// records, following the move chosen from flood-fill costs from a cell of
/// finite, nonzero cost lands on a cell costing exactly one less.
pub proof fn lemma_built_maze_descends(
    m: MazeView,
    writes: Seq<(Coord, Direction, bool)>,
    mode: FloodFillMode,
    sources: Seq<Coord>,
    costs: Seq<u16>,
    cell: Coord,
    heading: Direction,
)
    requires
        m.wf(),
        m.outer_walls_only(),
        costs.len() >= m.used(),
        m.after_writes(writes).costs_are_distances(mode, sources, costs),
        m.in_bounds(cell),
        0 < m.cost_at(costs, cell) < INF_COST,
    ensures
        ({
            let built = m.after_writes(writes);
            built.best_choice(costs, cell, preferences(heading), mode, 4).0 matches Some(d) && {
                &&& built.open_move(cell, d, mode)
                &&& built.cost_at(costs, built.neighbor(cell, d)->0) == built.cost_at(costs, cell) - 1
            }
        }),
{
    let built = m.after_writes(writes);
    m.lemma_built_maze_consistent(writes);
    m.lemma_fresh_consistent();
    m.lemma_writes_keep_consistent(writes);
    built.lemma_best_move_descends(mode, sources, costs, cell, heading);
}

} // verus!
