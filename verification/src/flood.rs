//! What flood fill computes: the number of open moves from the nearest goal
//! to each cell, stated over the maze model, with the lemmas that connect the
//! breadth-first work list to that statement.

use vstd::prelude::*;
use vstd::set_lib::{lemma_int_range, lemma_len_subset, set_int_range};
use crate::mapping::{Coord, Direction, FloodFillMode, INF_COST};
use crate::maze_model::{MazeView, step_fits};

verus! {

impl MazeView {
    /// The cost recorded for cell `v` in a row-major cost array.
    pub open spec fn cost_at(self, costs: Seq<u16>, v: Coord) -> int {
        costs[self.index_of(v)] as int
    }

    /// One open move leads from `u` to `v`.
    pub open spec fn steps_to(self, mode: FloodFillMode, u: Coord, v: Coord) -> bool {
        ||| self.open_move(u, Direction::North, mode) && self.neighbor(u, Direction::North) == Some(v)
        ||| self.open_move(u, Direction::East, mode) && self.neighbor(u, Direction::East) == Some(v)
        ||| self.open_move(u, Direction::South, mode) && self.neighbor(u, Direction::South) == Some(v)
        ||| self.open_move(u, Direction::West, mode) && self.neighbor(u, Direction::West) == Some(v)
    }

    /// Cell `v` can be reached from one of `sources` in at most `n` open moves.
    pub open spec fn reachable_within(
        self,
        mode: FloodFillMode,
        sources: Seq<Coord>,
        v: Coord,
        n: nat,
    ) -> bool
        decreases n,
    {
        if n == 0 {
            sources.contains(v)
        } else {
            ||| self.reachable_within(mode, sources, v, (n - 1) as nat)
            ||| exists|u: Coord|
                self.reachable_within(mode, sources, u, (n - 1) as nat) && #[trigger] self.steps_to(
                    mode,
                    u,
                    v,
                )
        }
    }

    /// Every in-bounds cell holds the least number of open moves from a
    /// source to it, or `INF_COST` when no number of moves reaches it.
    pub open spec fn costs_are_distances(
        self,
        mode: FloodFillMode,
        sources: Seq<Coord>,
        costs: Seq<u16>,
    ) -> bool {
        forall|v: Coord| #[trigger]
            self.in_bounds(v) ==> {
                &&& self.cost_at(costs, v) < INF_COST ==> self.reachable_within(
                    mode,
                    sources,
                    v,
                    self.cost_at(costs, v) as nat,
                )
                &&& forall|k: nat| #[trigger]
                    self.reachable_within(mode, sources, v, k) ==> self.cost_at(costs, v) <= k
                        && self.cost_at(costs, v) < INF_COST
            }
    }

    pub open spec fn all_in_bounds(self, s: Seq<Coord>) -> bool {
        forall|i: int| 0 <= i < s.len() ==> #[trigger] self.in_bounds(s[i])
    }

    /// `s[j]` is the first cell of `s` outside the maze, and the `j` cells
    /// before it fit in a work list of capacity `cap`.
    pub open spec fn first_stray(self, s: Seq<Coord>, j: int, cap: int) -> bool {
        &&& 0 <= j < s.len()
        &&& j <= cap
        &&& !self.in_bounds(s[j])
        &&& self.all_in_bounds(s.take(j))
    }

    /// No open move out of `u` lands on a cell costing more than one above `u`.
    pub(crate) open spec fn settled(self, mode: FloodFillMode, costs: Seq<u16>, u: Coord) -> bool {
        forall|d: Direction| #[trigger]
            self.open_move(u, d, mode) ==> self.cost_at(costs, self.neighbor(u, d)->0)
                <= self.cost_at(costs, u) + 1
    }

    /// Some in-bounds cell costs exactly `l`.
    pub(crate) open spec fn has_level(self, costs: Seq<u16>, l: int) -> bool {
        exists|w: Coord| self.in_bounds(w) && #[trigger] self.cost_at(costs, w) == l
    }

    /// Below every finite cost, each smaller cost is held by some cell.
    pub(crate) open spec fn levels_filled(self, costs: Seq<u16>) -> bool {
        forall|v: Coord, l: int|
            #![trigger self.cost_at(costs, v), self.has_level(costs, l)]
            self.in_bounds(v) && self.cost_at(costs, v) < INF_COST && 0 <= l <= self.cost_at(costs, v)
                ==> self.has_level(costs, l)
    }

    /// A row of distinct in-bounds cells is no longer than the maze's cell count.
    pub(crate) proof fn lemma_distinct_cells_fit(self, s: Seq<Coord>)
        requires
            s.no_duplicates(),
            self.all_in_bounds(s),
        ensures
            s.len() <= self.used(),
    {
        self.lemma_indices();
        let t = Seq::new(s.len(), |i: int| self.index_of(s[i]));
        assert forall|i: int, j: int| 0 <= i < t.len() && 0 <= j < t.len() && i != j implies t[i]
            != t[j] by {
            assert(self.in_bounds(s[i]));
            assert(self.in_bounds(s[j]));
        }
        assert(t.no_duplicates());
        t.unique_seq_to_set();
        lemma_int_range(0, self.used());
        assert forall|x: int| t.to_set().contains(x) implies set_int_range(0, self.used()).contains(
            x,
        ) by {
            let i = choose|i: int| 0 <= i < t.len() && t[i] == x;
            assert(self.in_bounds(s[i]));
        }
        lemma_len_subset(t.to_set(), set_int_range(0, self.used()));
    }

    /// With every level below it filled, a finite cost is below the cell count.
    pub(crate) proof fn lemma_cost_below_used(self, costs: Seq<u16>, v: Coord)
        requires
            self.in_bounds(v),
            self.cost_at(costs, v) < INF_COST,
            self.levels_filled(costs),
        ensures
            self.cost_at(costs, v) < self.used(),
    {
        let c = self.cost_at(costs, v);
        let s = Seq::new(
            (c + 1) as nat,
            |l: int| choose|w: Coord| self.in_bounds(w) && #[trigger] self.cost_at(costs, w) == l,
        );
        assert forall|i: int| 0 <= i < s.len() implies #[trigger] self.in_bounds(s[i])
            && self.cost_at(costs, s[i]) == i by {
            assert(self.cost_at(costs, v) == c);
            assert(self.has_level(costs, i));
        }
        assert forall|i: int, j: int| 0 <= i < s.len() && 0 <= j < s.len() && i != j implies s[i]
            != s[j] by {
            assert(self.in_bounds(s[i]));
            assert(self.in_bounds(s[j]));
        }
        assert(s.no_duplicates());
        self.lemma_distinct_cells_fit(s);
    }
}

/// Sum of the first `n` entries of a cost array.
pub(crate) open spec fn sum_prefix(s: Seq<u16>, n: int) -> int
    decreases n,
{
    if n <= 0 {
        0
    } else {
        sum_prefix(s, n - 1) + s[n - 1]
    }
}

pub(crate) proof fn lemma_sum_update(s: Seq<u16>, n: int, j: int, v: u16)
    requires
        0 <= j < n <= s.len(),
    ensures
        sum_prefix(s.update(j, v), n) == sum_prefix(s, n) - s[j] + v,
    decreases n,
{
    if n - 1 > j {
        lemma_sum_update(s, n - 1, j, v);
    } else {
        assert(n - 1 == j);
        lemma_sum_unchanged(s, s.update(j, v), n - 1);
    }
}

pub(crate) proof fn lemma_sum_unchanged(s: Seq<u16>, t: Seq<u16>, n: int)
    requires
        0 <= n <= s.len(),
        n <= t.len(),
        forall|i: int| 0 <= i < n ==> s[i] == t[i],
    ensures
        sum_prefix(s, n) == sum_prefix(t, n),
    decreases n,
{
    if n > 0 {
        lemma_sum_unchanged(s, t, n - 1);
    }
}

pub(crate) proof fn lemma_sum_nonneg(s: Seq<u16>, n: int)
    ensures
        sum_prefix(s, n) >= 0,
    decreases n,
{
    if n > 0 {
        lemma_sum_nonneg(s, n - 1);
    }
}

/// Number of unreached (`INF_COST`) entries among the first `n`.
pub(crate) open spec fn inf_count(s: Seq<u16>, n: int) -> int
    decreases n,
{
    if n <= 0 {
        0
    } else {
        inf_count(s, n - 1) + if s[n - 1] == INF_COST {
            1int
        } else {
            0
        }
    }
}

/// The count lies between 0 and `n`; one reached entry keeps it below `n`,
/// one unreached entry keeps it above 0.
pub(crate) proof fn lemma_inf_count_bounds(s: Seq<u16>, n: int, j: int)
    requires
        0 <= j < n,
    ensures
        0 <= inf_count(s, n) <= n,
        s[j] != INF_COST ==> inf_count(s, n) <= n - 1,
        s[j] == INF_COST ==> inf_count(s, n) >= 1,
    decreases n,
{
    if n - 1 > j {
        lemma_inf_count_bounds(s, n - 1, j);
    } else {
        lemma_inf_count_range(s, n - 1);
    }
}

pub(crate) proof fn lemma_inf_count_range(s: Seq<u16>, n: int)
    ensures
        n >= 0 ==> 0 <= inf_count(s, n) <= n,
        n < 0 ==> inf_count(s, n) == 0,
    decreases n,
{
    if n > 0 {
        lemma_inf_count_range(s, n - 1);
    }
}

/// Reaching an unreached entry lowers the count by one.
pub(crate) proof fn lemma_inf_count_update(s: Seq<u16>, n: int, j: int, v: u16)
    requires
        0 <= j < n <= s.len(),
        s[j] == INF_COST,
        v != INF_COST,
    ensures
        inf_count(s.update(j, v), n) == inf_count(s, n) - 1,
    decreases n,
{
    if n - 1 > j {
        lemma_inf_count_update(s, n - 1, j, v);
    } else {
        lemma_inf_count_unchanged(s, s.update(j, v), n - 1);
    }
}

pub(crate) proof fn lemma_inf_count_unchanged(s: Seq<u16>, t: Seq<u16>, n: int)
    requires
        n <= s.len(),
        n <= t.len(),
        forall|i: int| 0 <= i < n ==> s[i] == t[i],
    ensures
        inf_count(s, n) == inf_count(t, n),
    decreases n,
{
    if n > 0 {
        lemma_inf_count_unchanged(s, t, n - 1);
    }
}

impl MazeView {
    /// Every finite cost is witnessed by a walk of that many open moves.
    pub(crate) open spec fn costs_sound(self, mode: FloodFillMode, sources: Seq<Coord>, costs: Seq<u16>) -> bool {
        forall|v: Coord|
            self.in_bounds(v) && #[trigger] self.cost_at(costs, v) < INF_COST ==> self.reachable_within(
                mode,
                sources,
                v,
                self.cost_at(costs, v) as nat,
            )
    }

    /// Every source is inside the maze and costs nothing.
    pub(crate) open spec fn sources_at_zero(self, sources: Seq<Coord>, costs: Seq<u16>) -> bool {
        forall|i: int|
            0 <= i < sources.len() ==> #[trigger] self.cost_at(costs, sources[i]) == 0
                && self.in_bounds(sources[i])
    }

    /// The facts about costs that hold throughout the search, whatever the
    /// work list holds.
    pub(crate) open spec fn costs_consistent(self, mode: FloodFillMode, sources: Seq<Coord>, costs: Seq<u16>) -> bool {
        &&& self.wf()
        &&& costs.len() >= self.used()
        &&& self.costs_sound(mode, sources, costs)
        &&& self.sources_at_zero(sources, costs)
        &&& self.levels_filled(costs)
    }

    /// The breadth-first search state between two pops: the work list holds
    /// in-bounds cells of finite cost in non-decreasing order spanning at
    /// most one unit, no finite cost exceeds the head's by more than one,
    /// and every finite cell not waiting in the list is settled.
    pub(crate) open spec fn bfs_state(
        self,
        mode: FloodFillMode,
        sources: Seq<Coord>,
        q: Seq<Coord>,
        costs: Seq<u16>,
        distinct: bool,
    ) -> bool {
        &&& self.costs_consistent(mode, sources, costs)
        &&& forall|i: int|
            0 <= i < q.len() ==> #[trigger] self.cost_at(costs, q[i]) < INF_COST && self.in_bounds(
                q[i],
            )
        &&& forall|i: int, j: int|
            0 <= i <= j < q.len() ==> #[trigger] self.cost_at(costs, q[i]) <= #[trigger] self.cost_at(
                costs,
                q[j],
            ) && self.cost_at(costs, q[j]) <= self.cost_at(costs, q[i]) + 1
        &&& q.len() > 0 ==> forall|v: Coord|
            self.in_bounds(v) && #[trigger] self.cost_at(costs, v) < INF_COST ==> self.cost_at(costs, v)
                <= self.cost_at(costs, q[0]) + 1
        &&& forall|u: Coord|
            self.in_bounds(u) && #[trigger] self.cost_at(costs, u) < INF_COST && !q.contains(u)
                ==> self.settled(mode, costs, u)
        &&& distinct ==> q.no_duplicates()
    }

    /// The search state while the cell `cell` of cost `base`, just taken
    /// from the work list, has its neighbours examined.
    pub(crate) open spec fn relaxing(
        self,
        mode: FloodFillMode,
        sources: Seq<Coord>,
        cell: Coord,
        base: int,
        q: Seq<Coord>,
        costs: Seq<u16>,
        distinct: bool,
    ) -> bool {
        &&& self.costs_consistent(mode, sources, costs)
        &&& self.in_bounds(cell)
        &&& self.cost_at(costs, cell) == base
        &&& base < self.used()
        &&& forall|i: int|
            0 <= i < q.len() ==> {
                &&& base <= #[trigger] self.cost_at(costs, q[i])
                &&& self.cost_at(costs, q[i]) <= base + 1
                &&& self.in_bounds(q[i])
            }
        &&& forall|i: int, j: int|
            0 <= i <= j < q.len() ==> #[trigger] self.cost_at(costs, q[i]) <= #[trigger] self.cost_at(
                costs,
                q[j],
            )
        &&& forall|v: Coord|
            self.in_bounds(v) && #[trigger] self.cost_at(costs, v) < INF_COST ==> self.cost_at(costs, v)
                <= base + 1
        &&& forall|u: Coord|
            self.in_bounds(u) && #[trigger] self.cost_at(costs, u) < INF_COST && !q.contains(u) && u
                != cell ==> self.settled(mode, costs, u)
        &&& distinct ==> q.no_duplicates()
    }

    /// The used cells fit in `u16` costs with room to spare.
    pub(crate) proof fn lemma_used_small(self)
        ensures
            0 <= self.used() <= 255 * 255,
    {
        assert(0 <= self.width as int * self.height as int <= 255 * 255) by (nonlinear_arith)
            requires
                self.width <= 255,
                self.height <= 255,
        ;
    }

    /// Seeding: the sources queued at cost zero, every other cell unreached.
    pub(crate) proof fn lemma_seeded(self, mode: FloodFillMode, sources: Seq<Coord>, costs: Seq<u16>)
        requires
            self.wf(),
            costs.len() >= self.used(),
            self.all_in_bounds(sources),
            forall|v: Coord| #[trigger]
                self.in_bounds(v) ==> self.cost_at(costs, v) == if sources.contains(v) {
                    0int
                } else {
                    INF_COST as int
                },
        ensures
            self.bfs_state(mode, sources, sources, costs, sources.no_duplicates()),
    {
        assert forall|i: int| 0 <= i < sources.len() implies #[trigger] self.cost_at(costs, sources[i])
            == 0 && self.in_bounds(sources[i]) by {
            assert(self.in_bounds(sources[i]));
            assert(sources.contains(sources[i]));
        }
        assert forall|v: Coord|
            self.in_bounds(v) && #[trigger] self.cost_at(costs, v) < INF_COST implies self.reachable_within(
            mode,
            sources,
            v,
            self.cost_at(costs, v) as nat,
        ) by {
            assert(self.in_bounds(v));
        }
        assert forall|v: Coord, l: int|
            self.in_bounds(v) && #[trigger] self.cost_at(costs, v) < INF_COST && 0 <= l <= self.cost_at(
                costs,
                v,
            ) implies #[trigger] self.has_level(costs, l) by {
            assert(self.in_bounds(v));
            assert(self.cost_at(costs, v) == 0);
        }
        assert forall|u: Coord|
            self.in_bounds(u) && #[trigger] self.cost_at(costs, u) < INF_COST && !sources.contains(
                u,
            ) implies self.settled(mode, costs, u) by {
            assert(self.in_bounds(u));
        }
    }

    /// Taking the head `q[0]` off a search state leaves a relaxing state
    /// around it.
    pub(crate) proof fn lemma_popped(
        self,
        mode: FloodFillMode,
        sources: Seq<Coord>,
        q: Seq<Coord>,
        costs: Seq<u16>,
        distinct: bool,
    )
        requires
            self.bfs_state(mode, sources, q, costs, distinct),
            q.len() > 0,
        ensures
            self.relaxing(
                mode,
                sources,
                q[0],
                self.cost_at(costs, q[0]),
                q.drop_first(),
                costs,
                distinct,
            ),
    {
        let cell = q[0];
        let base = self.cost_at(costs, cell);
        let q1 = q.drop_first();
        assert(self.cost_at(costs, q[0]) < INF_COST);
        assert(self.in_bounds(q[0]));
        self.lemma_cost_below_used(costs, cell);
        assert forall|i: int| 0 <= i < q1.len() implies base <= #[trigger] self.cost_at(costs, q1[i])
            && self.cost_at(costs, q1[i]) <= base + 1 && self.in_bounds(q1[i]) by {
            assert(q1[i] == q[i + 1]);
            assert(self.cost_at(costs, q[i + 1]) < INF_COST);
            assert(self.in_bounds(q[i + 1]));
            assert(self.cost_at(costs, q[0]) <= self.cost_at(costs, q[i + 1]) <= self.cost_at(costs, q[0]) + 1);
        }
        assert forall|i: int, j: int| 0 <= i <= j < q1.len() implies #[trigger] self.cost_at(
            costs,
            q1[i],
        ) <= #[trigger] self.cost_at(costs, q1[j]) by {
            assert(q1[i] == q[i + 1]);
            assert(q1[j] == q[j + 1]);
            assert(self.cost_at(costs, q[i + 1]) <= self.cost_at(costs, q[j + 1]));
        }
        assert forall|u: Coord|
            self.in_bounds(u) && #[trigger] self.cost_at(costs, u) < INF_COST && !q1.contains(u) && u
                != cell implies self.settled(mode, costs, u) by {
            if q.contains(u) {
                let i = choose|i: int| 0 <= i < q.len() && q[i] == u;
                assert(i != 0);
                assert(q1[i - 1] == u);
            }
        }
        if distinct {
            assert forall|i: int, j: int| 0 <= i < q1.len() && 0 <= j < q1.len() && i != j implies q1[i]
                != q1[j] by {
                assert(q1[i] == q[i + 1]);
                assert(q1[j] == q[j + 1]);
            }
        }
    }

    /// Once every neighbour of `cell` has been examined, the search state
    /// holds again.
    pub(crate) proof fn lemma_relaxed(
        self,
        mode: FloodFillMode,
        sources: Seq<Coord>,
        cell: Coord,
        base: int,
        q: Seq<Coord>,
        costs: Seq<u16>,
        distinct: bool,
    )
        requires
            self.relaxing(mode, sources, cell, base, q, costs, distinct),
            self.settled(mode, costs, cell),
        ensures
            self.bfs_state(mode, sources, q, costs, distinct),
    {
        assert forall|i: int| 0 <= i < q.len() implies #[trigger] self.cost_at(costs, q[i]) < INF_COST
            && self.in_bounds(q[i]) by {
            self.lemma_used_small();
            assert(base <= self.cost_at(costs, q[i]) <= base + 1);
            assert(self.in_bounds(q[i]));
        }
        assert forall|i: int, j: int| 0 <= i <= j < q.len() implies #[trigger] self.cost_at(costs, q[i])
            <= #[trigger] self.cost_at(costs, q[j]) <= self.cost_at(costs, q[i]) + 1 by {
            assert(base <= self.cost_at(costs, q[i]) <= base + 1);
            assert(base <= self.cost_at(costs, q[j]) <= base + 1);
        }
        if q.len() > 0 {
            assert(base <= self.cost_at(costs, q[0]));
        }
    }

    /// Examining one neighbour `next` of `cell`, reached by an open move and
    /// still unreached, gives it cost `base + 1` and queues it.
    pub(crate) proof fn lemma_relax_update(
        self,
        mode: FloodFillMode,
        sources: Seq<Coord>,
        cell: Coord,
        d: Direction,
        base: int,
        q: Seq<Coord>,
        costs: Seq<u16>,
        distinct: bool,
    )
        requires
            self.relaxing(mode, sources, cell, base, q, costs, distinct),
            self.open_move(cell, d, mode),
            self.cost_at(costs, self.neighbor(cell, d)->0) == INF_COST,
        ensures
            ({
                let next = self.neighbor(cell, d)->0;
                let costs2 = costs.update(self.index_of(next), (base + 1) as u16);
                &&& self.relaxing(mode, sources, cell, base, q.push(next), costs2, distinct)
                &&& sum_prefix(costs2, self.used()) < sum_prefix(costs, self.used())
                &&& self.cost_at(costs2, next) == base + 1
                &&& forall|v: Coord| #[trigger]
                    self.in_bounds(v) && v != next ==> self.cost_at(costs2, v) == self.cost_at(costs, v)
                &&& forall|i: int| self.used() <= i < costs.len() ==> costs2[i] == costs[i]
                &&& distinct ==> q.len() < self.used()
            }),
    {
        let next = self.neighbor(cell, d)->0;
        let ni = self.index_of(next);
        let costs2 = costs.update(ni, (base + 1) as u16);
        let q2 = q.push(next);
        self.lemma_indices();
        self.lemma_used_small();
        self.lemma_neighbor_back(cell, d);
        assert(self.in_bounds(next));
        assert(0 <= ni < self.used());
        assert(self.cost_at(costs2, next) == base + 1);
        assert forall|v: Coord| #[trigger] self.in_bounds(v) && v != next implies self.cost_at(costs2, v)
            == self.cost_at(costs, v) by {
            assert(self.index_of(v) != ni);
        }
        assert(self.cost_at(costs2, cell) == base);
        // the search invariants over the new costs and work list
        assert forall|v: Coord|
            self.in_bounds(v) && #[trigger] self.cost_at(costs2, v) < INF_COST implies self.reachable_within(
            mode,
            sources,
            v,
            self.cost_at(costs2, v) as nat,
        ) by {
            if v == next {
                assert(self.cost_at(costs, cell) < INF_COST);
                assert(self.reachable_within(mode, sources, cell, base as nat));
                assert(self.steps_to(mode, cell, next)) by {
                    match d {
                        Direction::North => {},
                        Direction::East => {},
                        Direction::South => {},
                        Direction::West => {},
                    }
                }
                let n: nat = (base + 1) as nat;
                assert(self.reachable_within(mode, sources, cell, (n - 1) as nat));
                assert(self.reachable_within(mode, sources, next, n));
            } else {
                assert(self.cost_at(costs, v) < INF_COST);
            }
        }
        assert forall|i: int| 0 <= i < sources.len() implies #[trigger] self.cost_at(costs2, sources[i])
            == 0 && self.in_bounds(sources[i]) by {
            assert(self.cost_at(costs, sources[i]) == 0);
        }
        assert forall|v: Coord, l: int|
            self.in_bounds(v) && #[trigger] self.cost_at(costs2, v) < INF_COST && 0 <= l
                <= self.cost_at(costs2, v) implies #[trigger] self.has_level(costs2, l) by {
            if l == base + 1 {
                assert(self.in_bounds(next) && self.cost_at(costs2, next) == l);
            } else {
                let src = if v == next {
                    cell
                } else {
                    v
                };
                assert(self.cost_at(costs, src) < INF_COST && 0 <= l <= self.cost_at(costs, src));
                assert(self.has_level(costs, l));
                let w = choose|w: Coord| self.in_bounds(w) && #[trigger] self.cost_at(costs, w) == l;
                assert(w != next);
                assert(self.cost_at(costs2, w) == l);
            }
        }
        assert forall|i: int| 0 <= i < q2.len() implies base <= #[trigger] self.cost_at(costs2, q2[i])
            && self.cost_at(costs2, q2[i]) <= base + 1 && self.in_bounds(q2[i]) by {
            if i < q.len() {
                assert(q2[i] == q[i]);
                assert(base <= self.cost_at(costs, q[i]) <= base + 1);
                assert(q[i] != next);
            }
        }
        assert forall|i: int, j: int| 0 <= i <= j < q2.len() implies #[trigger] self.cost_at(
            costs2,
            q2[i],
        ) <= #[trigger] self.cost_at(costs2, q2[j]) by {
            if j < q.len() {
                assert(q2[i] == q[i] && q2[j] == q[j]);
                assert(self.cost_at(costs, q[i]) <= self.cost_at(costs, q[j]));
                assert(base <= self.cost_at(costs, q[i]) <= base + 1);
                assert(base <= self.cost_at(costs, q[j]) <= base + 1);
            } else if i < q.len() {
                assert(q2[i] == q[i]);
                assert(base <= self.cost_at(costs, q[i]) <= base + 1);
            }
        }
        assert forall|v: Coord|
            self.in_bounds(v) && #[trigger] self.cost_at(costs2, v) < INF_COST implies self.cost_at(
            costs2,
            v,
        ) <= base + 1 by {
            if v != next {
                assert(self.cost_at(costs, v) < INF_COST);
            }
        }
        assert forall|u: Coord|
            self.in_bounds(u) && #[trigger] self.cost_at(costs2, u) < INF_COST && !q2.contains(u) && u
                != cell implies self.settled(mode, costs2, u) by {
            assert(u != next) by {
                assert(q2[q.len() as int] == next);
            }
            assert(self.cost_at(costs, u) < INF_COST);
            assert(!q.contains(u)) by {
                if q.contains(u) {
                    let i = choose|i: int| 0 <= i < q.len() && q[i] == u;
                    assert(q2[i] == u);
                }
            }
            assert(self.settled(mode, costs, u));
            assert forall|e: Direction| #[trigger] self.open_move(u, e, mode) implies self.cost_at(
                costs2,
                self.neighbor(u, e)->0,
            ) <= self.cost_at(costs2, u) + 1 by {
                self.lemma_neighbor_back(u, e);
                if self.neighbor(u, e)->0 != next {
                    assert(self.cost_at(costs2, self.neighbor(u, e)->0) == self.cost_at(
                        costs,
                        self.neighbor(u, e)->0,
                    ));
                }
            }
        }
        assert(!q.contains(next)) by {
            if q.contains(next) {
                let i = choose|i: int| 0 <= i < q.len() && q[i] == next;
                assert(base <= self.cost_at(costs, q[i]) <= base + 1);
            }
        }
        if distinct {
            assert(q2.no_duplicates()) by {
                assert forall|i: int, j: int| 0 <= i < q2.len() && 0 <= j < q2.len() && i != j implies q2[i]
                    != q2[j] by {
                    if i < q.len() && j < q.len() {
                        assert(q2[i] == q[i] && q2[j] == q[j]);
                    } else if i < q.len() {
                        assert(q2[i] == q[i]);
                        assert(q.contains(q[i]));
                    } else {
                        assert(q2[j] == q[j]);
                        assert(q.contains(q[j]));
                    }
                }
            }
            assert forall|i: int| 0 <= i < q2.len() implies #[trigger] self.in_bounds(q2[i]) by {
                if i < q.len() {
                    assert(q2[i] == q[i]);
                    assert(base <= self.cost_at(costs, q[i]) <= base + 1);
                }
            }
            self.lemma_distinct_cells_fit(q2);
        }
        lemma_sum_update(costs, self.used(), ni, (base + 1) as u16);
    }

    /// With the work list empty, the settled costs are the distances from
    /// the sources: every walk of `k` open moves reaches a cell costing at
    /// most `k`.
    pub(crate) proof fn lemma_reach_bound(
        self,
        mode: FloodFillMode,
        sources: Seq<Coord>,
        costs: Seq<u16>,
        v: Coord,
        k: nat,
    )
        requires
            self.bfs_state(mode, sources, Seq::empty(), costs, false),
            self.reachable_within(mode, sources, v, k),
        ensures
            self.in_bounds(v),
            self.cost_at(costs, v) <= k,
            self.cost_at(costs, v) < INF_COST,
        decreases k,
    {
        if k == 0 {
            let i = choose|i: int| 0 <= i < sources.len() && sources[i] == v;
            assert(self.cost_at(costs, sources[i]) == 0);
        } else if self.reachable_within(mode, sources, v, (k - 1) as nat) {
            self.lemma_reach_bound(mode, sources, costs, v, (k - 1) as nat);
        } else {
            let u = choose|u: Coord|
                self.reachable_within(mode, sources, u, (k - 1) as nat) && #[trigger] self.steps_to(
                    mode,
                    u,
                    v,
                );
            self.lemma_reach_bound(mode, sources, costs, u, (k - 1) as nat);
            self.lemma_cost_below_used(costs, u);
            self.lemma_used_small();
            assert(!Seq::<Coord>::empty().contains(u));
            assert(self.settled(mode, costs, u));
            if self.open_move(u, Direction::North, mode) && self.neighbor(u, Direction::North) == Some(v) {
                self.lemma_neighbor_back(u, Direction::North);
            } else if self.open_move(u, Direction::East, mode) && self.neighbor(u, Direction::East) == Some(v) {
                self.lemma_neighbor_back(u, Direction::East);
            } else if self.open_move(u, Direction::South, mode) && self.neighbor(u, Direction::South) == Some(v) {
                self.lemma_neighbor_back(u, Direction::South);
            } else {
                self.lemma_neighbor_back(u, Direction::West);
            }
        }
    }

    /// An exhausted search leaves exact distances.
    pub(crate) proof fn lemma_search_done(
        self,
        mode: FloodFillMode,
        sources: Seq<Coord>,
        costs: Seq<u16>,
        distinct: bool,
    )
        requires
            self.bfs_state(mode, sources, Seq::empty(), costs, distinct),
        ensures
            self.costs_are_distances(mode, sources, costs),
    {
        assert(self.bfs_state(mode, sources, Seq::empty(), costs, false));
        assert forall|v: Coord| #[trigger] self.in_bounds(v) implies {
            &&& self.cost_at(costs, v) < INF_COST ==> self.reachable_within(
                mode,
                sources,
                v,
                self.cost_at(costs, v) as nat,
            )
            &&& forall|k: nat| #[trigger]
                self.reachable_within(mode, sources, v, k) ==> self.cost_at(costs, v) <= k
                    && self.cost_at(costs, v) < INF_COST
        } by {
            assert forall|k: nat| #[trigger] self.reachable_within(mode, sources, v, k) implies self.cost_at(
                costs,
                v,
            ) <= k && self.cost_at(costs, v) < INF_COST by {
                self.lemma_reach_bound(mode, sources, costs, v, k);
            }
        }
    }
}



/// The order in which a move is chosen among equally cheap ones: straight
/// on, then left, then right, then back.
pub open spec fn preferences(heading: Direction) -> Seq<Direction> {
    seq![heading, heading.left(), heading.right(), heading.back()]
}

impl MazeView {
    /// Some side of `cell` faces a neighbouring row or column.
    pub open spec fn any_neighbor(self, cell: Coord) -> bool {
        ||| self.neighbor(cell, Direction::North) is Some
        ||| self.neighbor(cell, Direction::East) is Some
        ||| self.neighbor(cell, Direction::South) is Some
        ||| self.neighbor(cell, Direction::West) is Some
    }

    /// Each direction of `prefs` that is probed before the first one that
    /// faces a neighbour can be computed without leaving 8-bit coordinates;
    /// for an in-bounds cell every direction is probed and fits.
    pub open spec fn probes_fit(self, cell: Coord, prefs: Seq<Direction>) -> bool {
        forall|i: int|
            0 <= i < prefs.len() && (self.in_bounds(cell) || forall|j: int|
                0 <= j < i ==> #[trigger] self.neighbor(cell, prefs[j]) is None) ==> step_fits(
                cell,
                #[trigger] prefs[i],
            )
    }

    /// The best move among the first `n` of `prefs`, with its cost: the
    /// first open move reaching the strictly lowest cost below `INF_COST`.
    pub open spec fn best_choice(
        self,
        costs: Seq<u16>,
        cell: Coord,
        prefs: Seq<Direction>,
        mode: FloodFillMode,
        n: nat,
    ) -> (Option<Direction>, int)
        decreases n,
    {
        if n == 0 {
            (None, INF_COST as int)
        } else {
            let prev = self.best_choice(costs, cell, prefs, mode, (n - 1) as nat);
            let d = prefs[n - 1];
            if self.open_move(cell, d, mode) && self.cost_at(costs, self.neighbor(cell, d)->0) < prev.1 {
                (Some(d), self.cost_at(costs, self.neighbor(cell, d)->0))
            } else {
                prev
            }
        }
    }

    /// The chosen move is open and no other open move among the first `n`
    /// preferences is cheaper; with no choice, every open one costs `INF_COST`.
    pub proof fn lemma_best_choice_minimal(
        self,
        costs: Seq<u16>,
        cell: Coord,
        prefs: Seq<Direction>,
        mode: FloodFillMode,
        n: nat,
    )
        requires
            n <= prefs.len(),
            costs.len() >= self.used(),
            self.wf(),
        ensures
            ({
                let (choice, c) = self.best_choice(costs, cell, prefs, mode, n);
                &&& c <= INF_COST
                &&& choice matches Some(d) ==> {
                    &&& self.open_move(cell, d, mode)
                    &&& c == self.cost_at(costs, self.neighbor(cell, d)->0)
                    &&& c < INF_COST
                }
                &&& choice is None ==> c == INF_COST
                &&& forall|i: int|
                    0 <= i < n && self.open_move(cell, #[trigger] prefs[i], mode) ==> c
                        <= self.cost_at(costs, self.neighbor(cell, prefs[i])->0)
            }),
        decreases n,
    {
        if n > 0 {
            self.lemma_best_choice_minimal(costs, cell, prefs, mode, (n - 1) as nat);
            let d = prefs[n - 1];
            if self.open_move(cell, d, mode) {
                self.lemma_indices();
                self.lemma_neighbor_back(cell, d);
            }
        }
    }
}

impl MazeView {
    /// The chosen move is the first cheapest open move: no open move among
    /// the first `n` preferences is cheaper, and every open move listed
    /// before the chosen one is strictly dearer; with no choice, every open
    /// move leads to `INF_COST`.
    pub proof fn lemma_best_choice_first_cheapest(
        self,
        costs: Seq<u16>,
        cell: Coord,
        prefs: Seq<Direction>,
        mode: FloodFillMode,
        n: nat,
    )
        requires
            n <= prefs.len(),
        ensures
            ({
                let (choice, c) = self.best_choice(costs, cell, prefs, mode, n);
                &&& c <= INF_COST
                &&& forall|j: int|
                    0 <= j < n && self.open_move(cell, #[trigger] prefs[j], mode) ==> c
                        <= self.cost_at(costs, self.neighbor(cell, prefs[j])->0)
                &&& choice is None ==> c == INF_COST
                &&& choice matches Some(d) ==> {
                    &&& self.open_move(cell, d, mode)
                    &&& c == self.cost_at(costs, self.neighbor(cell, d)->0)
                    &&& c < INF_COST
                    &&& exists|i: int|
                        0 <= i < n && #[trigger] prefs[i] == d && forall|j: int|
                            0 <= j < i && self.open_move(cell, #[trigger] prefs[j], mode) ==> c
                                < self.cost_at(costs, self.neighbor(cell, prefs[j])->0)
                }
            }),
        decreases n,
    {
        if n > 0 {
            self.lemma_best_choice_first_cheapest(costs, cell, prefs, mode, (n - 1) as nat);
            let prev = self.best_choice(costs, cell, prefs, mode, (n - 1) as nat);
            let d = prefs[n - 1];
            let (choice, c) = self.best_choice(costs, cell, prefs, mode, n);
            if self.open_move(cell, d, mode) && self.cost_at(costs, self.neighbor(cell, d)->0) < prev.1 {
                assert(prefs[n - 1] == d);
                assert forall|j: int|
                    0 <= j < n - 1 && self.open_move(cell, #[trigger] prefs[j], mode) implies c
                    < self.cost_at(costs, self.neighbor(cell, prefs[j])->0) by {}
            } else if let Some(pd) = prev.0 {
                let i = choose|i: int|
                    0 <= i < n - 1 && #[trigger] prefs[i] == pd && forall|j: int|
                        0 <= j < i && self.open_move(cell, #[trigger] prefs[j], mode) ==> prev.1
                            < self.cost_at(costs, self.neighbor(cell, prefs[j])->0);
                assert(0 <= i < n && prefs[i] == pd);
            }
        }
    }
}

} // verus!
